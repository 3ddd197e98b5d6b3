//! sRGB <-> linear-light transfer tables (13-bit linear precision).

use vstd::prelude::*;

verus! {

/// Full linear light: `255 * 32`.
pub const LINEAR_MAX: u32 = 8160;

/// Linear light, 0 to `LINEAR_MAX`, of each sRGB code value: the sRGB
/// transfer curve `c / 12.92` up to `c = 0.04045`, `((c + 0.055) / 1.055)^2.4`
/// above, scaled by `LINEAR_MAX` and rounded to nearest.
pub const SRGB_TO_LINEAR: [u16; 256] = [
    0, 2, 5, 7, 10, 12, 15, 17, 20, 22, 25, 27, 30, 33, 36, 39,
    42, 46, 49, 53, 57, 61, 65, 70, 75, 79, 84, 89, 95, 100, 106, 112,
    118, 124, 131, 137, 144, 151, 158, 166, 173, 181, 189, 197, 206, 214, 223, 232,
    241, 251, 260, 270, 280, 291, 301, 312, 323, 334, 345, 357, 369, 381, 393, 406,
    418, 431, 445, 458, 472, 486, 500, 514, 529, 544, 559, 574, 590, 606, 622, 638,
    655, 671, 689, 706, 723, 741, 759, 778, 796, 815, 834, 854, 873, 893, 913, 934,
    954, 975, 997, 1018, 1040, 1062, 1084, 1107, 1130, 1153, 1176, 1200, 1224, 1248, 1272, 1297,
    1322, 1347, 1373, 1399, 1425, 1452, 1478, 1505, 1533, 1560, 1588, 1616, 1645, 1673, 1702, 1732,
    1761, 1791, 1822, 1852, 1883, 1914, 1945, 1977, 2009, 2041, 2074, 2107, 2140, 2173, 2207, 2241,
    2276, 2310, 2346, 2381, 2416, 2452, 2489, 2525, 2562, 2599, 2637, 2675, 2713, 2751, 2790, 2829,
    2869, 2908, 2948, 2989, 3029, 3070, 3112, 3153, 3195, 3238, 3280, 3323, 3366, 3410, 3454, 3498,
    3543, 3588, 3633, 3678, 3724, 3771, 3817, 3864, 3911, 3959, 4007, 4055, 4104, 4152, 4202, 4251,
    4301, 4352, 4402, 4453, 4504, 4556, 4608, 4660, 4713, 4766, 4819, 4873, 4927, 4982, 5036, 5092,
    5147, 5203, 5259, 5315, 5372, 5430, 5487, 5545, 5603, 5662, 5721, 5780, 5840, 5900, 5961, 6021,
    6082, 6144, 6206, 6268, 6331, 6394, 6457, 6521, 6585, 6649, 6714, 6779, 6845, 6910, 6977, 7043,
    7110, 7178, 7245, 7314, 7382, 7451, 7520, 7590, 7660, 7730, 7801, 7872, 7943, 8015, 8087, 8160,
];

/// For each sRGB code value, the least linear level that encodes to it
/// under the inverse curve (`12.92 * lin` up to `lin = 0.0031308`,
/// `1.055 * lin^(1 / 2.4) - 0.055` above, times 255 rounded to nearest).
pub const SRGB_THRESHOLDS: [u16; 256] = [
    0, 2, 4, 7, 9, 12, 14, 17, 19, 22, 24, 27, 29, 32, 35, 38,
    41, 44, 48, 52, 56, 60, 64, 68, 73, 77, 82, 87, 93, 98, 104, 109,
    115, 121, 128, 134, 141, 148, 155, 162, 170, 178, 185, 194, 202, 210, 219, 228,
    237, 246, 256, 266, 276, 286, 296, 307, 318, 329, 340, 352, 363, 375, 387, 400,
    412, 425, 438, 452, 465, 479, 493, 507, 522, 537, 552, 567, 582, 598, 614, 630,
    647, 663, 680, 698, 715, 733, 751, 769, 787, 806, 825, 844, 864, 884, 904, 924,
    945, 965, 987, 1008, 1029, 1051, 1074, 1096, 1119, 1142, 1165, 1188, 1212, 1236, 1261, 1285,
    1310, 1335, 1361, 1386, 1413, 1439, 1465, 1492, 1519, 1547, 1575, 1603, 1631, 1660, 1688, 1718,
    1747, 1777, 1807, 1837, 1868, 1899, 1930, 1962, 1993, 2026, 2058, 2091, 2124, 2157, 2191, 2225,
    2259, 2294, 2328, 2364, 2399, 2435, 2471, 2507, 2544, 2581, 2619, 2656, 2694, 2732, 2771, 2810,
    2849, 2889, 2929, 2969, 3009, 3050, 3091, 3133, 3175, 3217, 3259, 3302, 3345, 3389, 3432, 3476,
    3521, 3566, 3611, 3656, 3702, 3748, 3794, 3841, 3888, 3935, 3983, 4031, 4080, 4128, 4178, 4227,
    4277, 4327, 4377, 4428, 4479, 4531, 4583, 4635, 4687, 4740, 4793, 4847, 4901, 4955, 5009, 5064,
    5120, 5175, 5231, 5288, 5344, 5401, 5459, 5517, 5575, 5633, 5692, 5751, 5811, 5871, 5931, 5991,
    6052, 6114, 6175, 6237, 6300, 6363, 6426, 6489, 6553, 6617, 6682, 6747, 6812, 6878, 6944, 7011,
    7077, 7144, 7212, 7280, 7348, 7417, 7486, 7555, 7625, 7695, 7766, 7837, 7908, 7980, 8052, 8124,
];

/// The sRGB code of linear level `l`, looked for from code `v` down: the
/// greatest code at most `v` whose threshold is at most `l`.
pub open spec fn encode_from(l: int, v: int) -> int
    decreases v,
{
    if v <= 0 {
        0
    } else if SRGB_THRESHOLDS[v] as int <= l {
        v
    } else {
        encode_from(l, v - 1)
    }
}

/// The sRGB code of linear level `l`: the greatest code whose threshold is
/// at most `l`.
pub open spec fn srgb_encode(l: int) -> int {
    encode_from(l, 255)
}

/// A code is one of the 256 values 0 to 255, named one by one so that facts
/// about each entry of a table can be combined.
proof fn lemma_code_cases(v: int)
    requires
        0 <= v < 256,
    ensures
        v == 0 || v == 1 || v == 2 || v == 3 || v == 4 || v == 5 || v == 6 || v == 7 || v == 8 || v == 9 || v == 10 || v == 11 || v == 12 || v == 13 || v == 14 || v == 15
        || v == 16 || v == 17 || v == 18 || v == 19 || v == 20 || v == 21 || v == 22 || v == 23 || v == 24 || v == 25 || v == 26 || v == 27 || v == 28 || v == 29 || v == 30 || v == 31
        || v == 32 || v == 33 || v == 34 || v == 35 || v == 36 || v == 37 || v == 38 || v == 39 || v == 40 || v == 41 || v == 42 || v == 43 || v == 44 || v == 45 || v == 46 || v == 47
        || v == 48 || v == 49 || v == 50 || v == 51 || v == 52 || v == 53 || v == 54 || v == 55 || v == 56 || v == 57 || v == 58 || v == 59 || v == 60 || v == 61 || v == 62 || v == 63
        || v == 64 || v == 65 || v == 66 || v == 67 || v == 68 || v == 69 || v == 70 || v == 71 || v == 72 || v == 73 || v == 74 || v == 75 || v == 76 || v == 77 || v == 78 || v == 79
        || v == 80 || v == 81 || v == 82 || v == 83 || v == 84 || v == 85 || v == 86 || v == 87 || v == 88 || v == 89 || v == 90 || v == 91 || v == 92 || v == 93 || v == 94 || v == 95
        || v == 96 || v == 97 || v == 98 || v == 99 || v == 100 || v == 101 || v == 102 || v == 103 || v == 104 || v == 105 || v == 106 || v == 107 || v == 108 || v == 109 || v == 110 || v == 111
        || v == 112 || v == 113 || v == 114 || v == 115 || v == 116 || v == 117 || v == 118 || v == 119 || v == 120 || v == 121 || v == 122 || v == 123 || v == 124 || v == 125 || v == 126 || v == 127
        || v == 128 || v == 129 || v == 130 || v == 131 || v == 132 || v == 133 || v == 134 || v == 135 || v == 136 || v == 137 || v == 138 || v == 139 || v == 140 || v == 141 || v == 142 || v == 143
        || v == 144 || v == 145 || v == 146 || v == 147 || v == 148 || v == 149 || v == 150 || v == 151 || v == 152 || v == 153 || v == 154 || v == 155 || v == 156 || v == 157 || v == 158 || v == 159
        || v == 160 || v == 161 || v == 162 || v == 163 || v == 164 || v == 165 || v == 166 || v == 167 || v == 168 || v == 169 || v == 170 || v == 171 || v == 172 || v == 173 || v == 174 || v == 175
        || v == 176 || v == 177 || v == 178 || v == 179 || v == 180 || v == 181 || v == 182 || v == 183 || v == 184 || v == 185 || v == 186 || v == 187 || v == 188 || v == 189 || v == 190 || v == 191
        || v == 192 || v == 193 || v == 194 || v == 195 || v == 196 || v == 197 || v == 198 || v == 199 || v == 200 || v == 201 || v == 202 || v == 203 || v == 204 || v == 205 || v == 206 || v == 207
        || v == 208 || v == 209 || v == 210 || v == 211 || v == 212 || v == 213 || v == 214 || v == 215 || v == 216 || v == 217 || v == 218 || v == 219 || v == 220 || v == 221 || v == 222 || v == 223
        || v == 224 || v == 225 || v == 226 || v == 227 || v == 228 || v == 229 || v == 230 || v == 231 || v == 232 || v == 233 || v == 234 || v == 235 || v == 236 || v == 237 || v == 238 || v == 239
        || v == 240 || v == 241 || v == 242 || v == 243 || v == 244 || v == 245 || v == 246 || v == 247 || v == 248 || v == 249 || v == 250 || v == 251 || v == 252 || v == 253 || v == 254 || v == 255,
{
    if v < 16 {
        assert(v == 0 || v == 1 || v == 2 || v == 3 || v == 4 || v == 5 || v == 6 || v == 7 || v == 8 || v == 9 || v == 10 || v == 11 || v == 12 || v == 13 || v == 14 || v == 15);
    } else if v < 32 {
        assert(v == 16 || v == 17 || v == 18 || v == 19 || v == 20 || v == 21 || v == 22 || v == 23 || v == 24 || v == 25 || v == 26 || v == 27 || v == 28 || v == 29 || v == 30 || v == 31);
    } else if v < 48 {
        assert(v == 32 || v == 33 || v == 34 || v == 35 || v == 36 || v == 37 || v == 38 || v == 39 || v == 40 || v == 41 || v == 42 || v == 43 || v == 44 || v == 45 || v == 46 || v == 47);
    } else if v < 64 {
        assert(v == 48 || v == 49 || v == 50 || v == 51 || v == 52 || v == 53 || v == 54 || v == 55 || v == 56 || v == 57 || v == 58 || v == 59 || v == 60 || v == 61 || v == 62 || v == 63);
    } else if v < 80 {
        assert(v == 64 || v == 65 || v == 66 || v == 67 || v == 68 || v == 69 || v == 70 || v == 71 || v == 72 || v == 73 || v == 74 || v == 75 || v == 76 || v == 77 || v == 78 || v == 79);
    } else if v < 96 {
        assert(v == 80 || v == 81 || v == 82 || v == 83 || v == 84 || v == 85 || v == 86 || v == 87 || v == 88 || v == 89 || v == 90 || v == 91 || v == 92 || v == 93 || v == 94 || v == 95);
    } else if v < 112 {
        assert(v == 96 || v == 97 || v == 98 || v == 99 || v == 100 || v == 101 || v == 102 || v == 103 || v == 104 || v == 105 || v == 106 || v == 107 || v == 108 || v == 109 || v == 110 || v == 111);
    } else if v < 128 {
        assert(v == 112 || v == 113 || v == 114 || v == 115 || v == 116 || v == 117 || v == 118 || v == 119 || v == 120 || v == 121 || v == 122 || v == 123 || v == 124 || v == 125 || v == 126 || v == 127);
    } else if v < 144 {
        assert(v == 128 || v == 129 || v == 130 || v == 131 || v == 132 || v == 133 || v == 134 || v == 135 || v == 136 || v == 137 || v == 138 || v == 139 || v == 140 || v == 141 || v == 142 || v == 143);
    } else if v < 160 {
        assert(v == 144 || v == 145 || v == 146 || v == 147 || v == 148 || v == 149 || v == 150 || v == 151 || v == 152 || v == 153 || v == 154 || v == 155 || v == 156 || v == 157 || v == 158 || v == 159);
    } else if v < 176 {
        assert(v == 160 || v == 161 || v == 162 || v == 163 || v == 164 || v == 165 || v == 166 || v == 167 || v == 168 || v == 169 || v == 170 || v == 171 || v == 172 || v == 173 || v == 174 || v == 175);
    } else if v < 192 {
        assert(v == 176 || v == 177 || v == 178 || v == 179 || v == 180 || v == 181 || v == 182 || v == 183 || v == 184 || v == 185 || v == 186 || v == 187 || v == 188 || v == 189 || v == 190 || v == 191);
    } else if v < 208 {
        assert(v == 192 || v == 193 || v == 194 || v == 195 || v == 196 || v == 197 || v == 198 || v == 199 || v == 200 || v == 201 || v == 202 || v == 203 || v == 204 || v == 205 || v == 206 || v == 207);
    } else if v < 224 {
        assert(v == 208 || v == 209 || v == 210 || v == 211 || v == 212 || v == 213 || v == 214 || v == 215 || v == 216 || v == 217 || v == 218 || v == 219 || v == 220 || v == 221 || v == 222 || v == 223);
    } else if v < 240 {
        assert(v == 224 || v == 225 || v == 226 || v == 227 || v == 228 || v == 229 || v == 230 || v == 231 || v == 232 || v == 233 || v == 234 || v == 235 || v == 236 || v == 237 || v == 238 || v == 239);
    } else if v < 256 {
        assert(v == 240 || v == 241 || v == 242 || v == 243 || v == 244 || v == 245 || v == 246 || v == 247 || v == 248 || v == 249 || v == 250 || v == 251 || v == 252 || v == 253 || v == 254 || v == 255);
    }
}

/// Adjacent thresholds strictly increase, from 0.
proof fn lemma_thresholds_adjacent()
    ensures
        SRGB_THRESHOLDS[0] == 0,
        forall|v: int| 0 < v < 256 ==> SRGB_THRESHOLDS[v - 1] < #[trigger] SRGB_THRESHOLDS[v],
        SRGB_THRESHOLDS[255] <= LINEAR_MAX,
{
    assert forall|v: int| 0 < v < 256 implies SRGB_THRESHOLDS[v - 1] < #[trigger] SRGB_THRESHOLDS[v] by {
        lemma_code_cases(v);
    }
}

/// The thresholds strictly increase.
pub proof fn lemma_thresholds_increase(a: int, b: int)
    requires
        0 <= a < b < 256,
    ensures
        SRGB_THRESHOLDS[a] < SRGB_THRESHOLDS[b],
    decreases b - a,
{
    lemma_thresholds_adjacent();
    if a + 1 < b {
        lemma_thresholds_increase(a, b - 1);
    }
    assert(SRGB_THRESHOLDS[b - 1] < SRGB_THRESHOLDS[b]);
}

/// The linear levels start at 0, strictly increase and end at full linear
/// light.
pub proof fn lemma_linear_levels()
    ensures
        SRGB_TO_LINEAR[0] == 0,
        SRGB_TO_LINEAR[255] == LINEAR_MAX,
        forall|v: int| 0 < v < 256 ==> SRGB_TO_LINEAR[v - 1] < #[trigger] SRGB_TO_LINEAR[v],
{
    assert forall|v: int| 0 < v < 256 implies SRGB_TO_LINEAR[v - 1] < #[trigger] SRGB_TO_LINEAR[v] by {
        lemma_code_cases(v);
    }
}

/// Every linear level is at most full linear light.
proof fn lemma_linear_levels_bounded(v: int)
    requires
        0 <= v < 256,
    ensures
        SRGB_TO_LINEAR[v] <= LINEAR_MAX,
{
    lemma_linear_levels();
    if v < 255 {
        lemma_linear_levels_below(v, 255);
    }
}

proof fn lemma_linear_levels_below(a: int, b: int)
    requires
        0 <= a < b < 256,
    ensures
        SRGB_TO_LINEAR[a] < SRGB_TO_LINEAR[b],
    decreases b - a,
{
    lemma_linear_levels();
    if a + 1 < b {
        lemma_linear_levels_below(a, b - 1);
    }
    assert(SRGB_TO_LINEAR[b - 1] < SRGB_TO_LINEAR[b]);
}

/// Each code's linear level lies between its own threshold and the next
/// code's.
proof fn lemma_levels_between_thresholds()
    ensures
        forall|v: int|
            0 <= v < 256 ==> SRGB_THRESHOLDS[v] <= #[trigger] SRGB_TO_LINEAR[v] && (v == 255
                || SRGB_TO_LINEAR[v] < SRGB_THRESHOLDS[v + 1]),
{
    assert forall|v: int| 0 <= v < 256 implies SRGB_THRESHOLDS[v] <= #[trigger] SRGB_TO_LINEAR[v] && (v == 255
        || SRGB_TO_LINEAR[v] < SRGB_THRESHOLDS[v + 1]) by {
        lemma_code_cases(v);
    }
}

/// A linear level from code `v`'s threshold up to (not including) the next
/// code's threshold encodes to `v`.
pub proof fn lemma_encode_is(l: int, v: int)
    requires
        0 <= v < 256,
        SRGB_THRESHOLDS[v] <= l,
        v == 255 || l < SRGB_THRESHOLDS[v + 1],
    ensures
        srgb_encode(l) == v,
{
    lemma_encode_from_is(l, v, 255);
}

proof fn lemma_encode_from_is(l: int, v: int, u: int)
    requires
        0 <= v <= u < 256,
        SRGB_THRESHOLDS[v] <= l,
        v == 255 || l < SRGB_THRESHOLDS[v + 1],
    ensures
        encode_from(l, u) == v,
    decreases u,
{
    if u > v {
        if v + 1 < u {
            lemma_thresholds_increase(v + 1, u);
        }
        lemma_encode_from_is(l, v, u - 1);
    }
}

/// Encoding the linear level of any sRGB code gives the code back.
pub proof fn lemma_round_trip(v: int)
    requires
        0 <= v < 256,
    ensures
        srgb_encode(SRGB_TO_LINEAR[v] as int) == v,
{
    lemma_levels_between_thresholds();
    assert(SRGB_THRESHOLDS[v] <= SRGB_TO_LINEAR[v]);
    lemma_encode_is(SRGB_TO_LINEAR[v] as int, v);
}

/// sRGB <-> linear-light lookup tables (13-bit linear precision).
///
/// `to_linear[srgb8]` gives linear light scaled to `0..=LINEAR_MAX`;
/// `to_srgb[linear]` inverts it. Swapping these tables is the designed
/// extension point for other transfer curves.
pub struct SrgbLuts {
    to_linear: [u16; 256],
    to_srgb: Vec<u8>,
}

impl SrgbLuts {
    /// The sRGB to linear table.
    pub closed spec fn linear_table(&self) -> Seq<u16> {
        self.to_linear@
    }

    /// The linear to sRGB table.
    pub closed spec fn srgb_table(&self) -> Seq<u8> {
        self.to_srgb@
    }

    /// One linear level per code, one code per linear level `0..=LINEAR_MAX`.
    pub open spec fn wf(&self) -> bool {
        &&& self.linear_table().len() == 256
        &&& self.srgb_table().len() == LINEAR_MAX + 1
    }

    /// The sRGB transfer tables.
    pub open spec fn is_standard(&self) -> bool {
        &&& self.wf()
        &&& self.linear_table() == SRGB_TO_LINEAR@
        &&& forall|l: int| 0 <= l <= LINEAR_MAX ==> #[trigger] self.srgb_table()[l] == srgb_encode(l)
    }

    /// Builds the sRGB tables.
    fn build() -> (luts: Self)
        ensures
            luts.is_standard(),
    {
        assert(SRGB_THRESHOLDS[0] == 0);
        let mut to_srgb: Vec<u8> = Vec::with_capacity(LINEAR_MAX as usize + 1);
        let mut v: usize = 0;
        let mut l: usize = 0;
        while l <= LINEAR_MAX as usize
            invariant
                to_srgb@.len() == l,
                l <= LINEAR_MAX + 1,
                v < 256,
                l <= LINEAR_MAX ==> SRGB_THRESHOLDS[v as int] <= l,
                forall|m: int| 0 <= m < l ==> #[trigger] to_srgb@[m] == srgb_encode(m),
            decreases LINEAR_MAX + 1 - l,
        {
            while v < 255 && SRGB_THRESHOLDS[v + 1] as usize <= l
                invariant
                    v < 256,
                    SRGB_THRESHOLDS[v as int] <= l,
                decreases 255 - v,
            {
                v += 1;
            }
            proof {
                lemma_encode_is(l as int, v as int);
            }
            to_srgb.push(v as u8);
            l += 1;
        }
        SrgbLuts { to_linear: SRGB_TO_LINEAR, to_srgb }
    }

    /// The sRGB tables. Each call builds them anew; pixel formats take them
    /// by reference, so one copy can serve them all.
    pub fn get() -> (luts: Self)
        ensures
            luts.is_standard(),
    {
        Self::build()
    }

    /// Tables for another transfer curve: `None` unless `to_srgb` has one
    /// entry per linear level `0..=LINEAR_MAX`.
    pub fn from_tables(to_linear: [u16; 256], to_srgb: Vec<u8>) -> (r: Option<Self>)
        ensures
            r is Some <==> to_srgb@.len() == LINEAR_MAX + 1,
            r matches Some(luts) ==> luts.wf() && luts.linear_table() == to_linear@ && luts.srgb_table() == to_srgb@,
    {
        if to_srgb.len() == LINEAR_MAX as usize + 1 {
            Some(SrgbLuts { to_linear, to_srgb })
        } else {
            None
        }
    }

    /// Linear light of sRGB code `srgb`.
    pub fn lin(&self, srgb: u8) -> (r: u32)
        requires
            self.wf(),
        ensures
            r == self.linear_table()[srgb as int],
    {
        self.to_linear[srgb as usize] as u32
    }

    /// sRGB code of linear level `linear`, levels above `LINEAR_MAX` taken
    /// as `LINEAR_MAX`.
    pub fn srgb(&self, linear: u32) -> (r: u8)
        requires
            self.wf(),
        ensures
            r == self.srgb_table()[if linear < LINEAR_MAX { linear as int } else { LINEAR_MAX as int }],
    {
        let l = if linear < LINEAR_MAX {
            linear
        } else {
            LINEAR_MAX
        };
        self.to_srgb[l as usize]
    }
}

/// Through the standard tables, a code's linear light encodes back to the
/// code itself.
pub proof fn lemma_standard_round_trip(luts: SrgbLuts, v: u8)
    requires
        luts.is_standard(),
    ensures
        luts.srgb_table()[luts.linear_table()[v as int] as int] == v,
        luts.linear_table()[v as int] <= LINEAR_MAX,
{
    lemma_round_trip(v as int);
    lemma_linear_levels_bounded(v as int);
}

} // verus!
