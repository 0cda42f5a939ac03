//! The table of multiplicative inverses in GF(2^8), with a proof that
//! every entry is the inverse of its index.
use vstd::prelude::*;

use crate::field::{gf_inv, gf_mul, lemma_inv, lemma_inv_unique};

verus! {

/// The multiplicative inverse of every element of GF(2^8), by index; the
/// entry for zero is zero.
pub const INV_TABLE: [u8; 256] = [
    0, 1, 141, 246, 203, 82, 123, 209, 232, 79, 41, 192, 176, 225, 229, 199,
    116, 180, 170, 75, 153, 43, 96, 95, 88, 63, 253, 204, 255, 64, 238, 178,
    58, 110, 90, 241, 85, 77, 168, 201, 193, 10, 152, 21, 48, 68, 162, 194,
    44, 69, 146, 108, 243, 57, 102, 66, 242, 53, 32, 111, 119, 187, 89, 25,
    29, 254, 55, 103, 45, 49, 245, 105, 167, 100, 171, 19, 84, 37, 233, 9,
    237, 92, 5, 202, 76, 36, 135, 191, 24, 62, 34, 240, 81, 236, 97, 23,
    22, 94, 175, 211, 73, 166, 54, 67, 244, 71, 145, 223, 51, 147, 33, 59,
    121, 183, 151, 133, 16, 181, 186, 60, 182, 112, 208, 6, 161, 250, 129, 130,
    131, 126, 127, 128, 150, 115, 190, 86, 155, 158, 149, 217, 247, 2, 185, 164,
    222, 106, 50, 109, 216, 138, 132, 114, 42, 20, 159, 136, 249, 220, 137, 154,
    251, 124, 46, 195, 143, 184, 101, 72, 38, 200, 18, 74, 206, 231, 210, 98,
    12, 224, 31, 239, 17, 117, 120, 113, 165, 142, 118, 61, 189, 188, 134, 87,
    11, 40, 47, 163, 218, 212, 228, 15, 169, 39, 83, 4, 27, 252, 172, 230,
    122, 7, 174, 99, 197, 219, 226, 234, 148, 139, 196, 213, 157, 248, 144, 107,
    177, 13, 214, 235, 198, 14, 207, 173, 8, 78, 215, 227, 93, 80, 30, 179,
    91, 35, 56, 52, 104, 70, 3, 140, 221, 156, 125, 160, 205, 26, 65, 28,
];

/// `v` is the inverse of the nonzero `k`.
spec fn inverse_pair(k: u8, v: u8) -> bool {
    gf_mul(k, v) == 1u8
}

/// Every entry of `INV_TABLE` is the inverse of its index.
pub proof fn lemma_inv_table()
    ensures
        forall|i: int| 0 <= i < 256 ==> #[trigger] INV_TABLE@[i] == gf_inv(i as u8),
{
    assert(inverse_pair(1u8, 1u8)
        && inverse_pair(2u8, 141u8)
        && inverse_pair(3u8, 246u8)
        && inverse_pair(4u8, 203u8)
        && inverse_pair(5u8, 82u8)
        && inverse_pair(6u8, 123u8)
        && inverse_pair(7u8, 209u8)
        && inverse_pair(8u8, 232u8)
        && inverse_pair(9u8, 79u8)
        && inverse_pair(10u8, 41u8)
        && inverse_pair(11u8, 192u8)
        && inverse_pair(12u8, 176u8)
        && inverse_pair(13u8, 225u8)
        && inverse_pair(14u8, 229u8)
        && inverse_pair(15u8, 199u8)
        && inverse_pair(16u8, 116u8)
        && inverse_pair(17u8, 180u8)
        && inverse_pair(18u8, 170u8)
        && inverse_pair(19u8, 75u8)
        && inverse_pair(20u8, 153u8)
        && inverse_pair(21u8, 43u8)
        && inverse_pair(22u8, 96u8)
        && inverse_pair(23u8, 95u8)
        && inverse_pair(24u8, 88u8)
        && inverse_pair(25u8, 63u8)
        && inverse_pair(26u8, 253u8)
        && inverse_pair(27u8, 204u8)
        && inverse_pair(28u8, 255u8)
        && inverse_pair(29u8, 64u8)
        && inverse_pair(30u8, 238u8)
        && inverse_pair(31u8, 178u8)
        && inverse_pair(32u8, 58u8)
        && inverse_pair(33u8, 110u8)
        && inverse_pair(34u8, 90u8)
        && inverse_pair(35u8, 241u8)
        && inverse_pair(36u8, 85u8)
        && inverse_pair(37u8, 77u8)
        && inverse_pair(38u8, 168u8)
        && inverse_pair(39u8, 201u8)
        && inverse_pair(40u8, 193u8)
        && inverse_pair(41u8, 10u8)
        && inverse_pair(42u8, 152u8)
        && inverse_pair(43u8, 21u8)
        && inverse_pair(44u8, 48u8)
        && inverse_pair(45u8, 68u8)
        && inverse_pair(46u8, 162u8)
        && inverse_pair(47u8, 194u8)
        && inverse_pair(48u8, 44u8)
        && inverse_pair(49u8, 69u8)
        && inverse_pair(50u8, 146u8)
        && inverse_pair(51u8, 108u8)
        && inverse_pair(52u8, 243u8)
        && inverse_pair(53u8, 57u8)
        && inverse_pair(54u8, 102u8)
        && inverse_pair(55u8, 66u8)
        && inverse_pair(56u8, 242u8)
        && inverse_pair(57u8, 53u8)
        && inverse_pair(58u8, 32u8)
        && inverse_pair(59u8, 111u8)
        && inverse_pair(60u8, 119u8)
        && inverse_pair(61u8, 187u8)
        && inverse_pair(62u8, 89u8)
        && inverse_pair(63u8, 25u8)) by (bit_vector);
    assert(inverse_pair(64u8, 29u8)
        && inverse_pair(65u8, 254u8)
        && inverse_pair(66u8, 55u8)
        && inverse_pair(67u8, 103u8)
        && inverse_pair(68u8, 45u8)
        && inverse_pair(69u8, 49u8)
        && inverse_pair(70u8, 245u8)
        && inverse_pair(71u8, 105u8)
        && inverse_pair(72u8, 167u8)
        && inverse_pair(73u8, 100u8)
        && inverse_pair(74u8, 171u8)
        && inverse_pair(75u8, 19u8)
        && inverse_pair(76u8, 84u8)
        && inverse_pair(77u8, 37u8)
        && inverse_pair(78u8, 233u8)
        && inverse_pair(79u8, 9u8)
        && inverse_pair(80u8, 237u8)
        && inverse_pair(81u8, 92u8)
        && inverse_pair(82u8, 5u8)
        && inverse_pair(83u8, 202u8)
        && inverse_pair(84u8, 76u8)
        && inverse_pair(85u8, 36u8)
        && inverse_pair(86u8, 135u8)
        && inverse_pair(87u8, 191u8)
        && inverse_pair(88u8, 24u8)
        && inverse_pair(89u8, 62u8)
        && inverse_pair(90u8, 34u8)
        && inverse_pair(91u8, 240u8)
        && inverse_pair(92u8, 81u8)
        && inverse_pair(93u8, 236u8)
        && inverse_pair(94u8, 97u8)
        && inverse_pair(95u8, 23u8)
        && inverse_pair(96u8, 22u8)
        && inverse_pair(97u8, 94u8)
        && inverse_pair(98u8, 175u8)
        && inverse_pair(99u8, 211u8)
        && inverse_pair(100u8, 73u8)
        && inverse_pair(101u8, 166u8)
        && inverse_pair(102u8, 54u8)
        && inverse_pair(103u8, 67u8)
        && inverse_pair(104u8, 244u8)
        && inverse_pair(105u8, 71u8)
        && inverse_pair(106u8, 145u8)
        && inverse_pair(107u8, 223u8)
        && inverse_pair(108u8, 51u8)
        && inverse_pair(109u8, 147u8)
        && inverse_pair(110u8, 33u8)
        && inverse_pair(111u8, 59u8)
        && inverse_pair(112u8, 121u8)
        && inverse_pair(113u8, 183u8)
        && inverse_pair(114u8, 151u8)
        && inverse_pair(115u8, 133u8)
        && inverse_pair(116u8, 16u8)
        && inverse_pair(117u8, 181u8)
        && inverse_pair(118u8, 186u8)
        && inverse_pair(119u8, 60u8)
        && inverse_pair(120u8, 182u8)
        && inverse_pair(121u8, 112u8)
        && inverse_pair(122u8, 208u8)
        && inverse_pair(123u8, 6u8)
        && inverse_pair(124u8, 161u8)
        && inverse_pair(125u8, 250u8)
        && inverse_pair(126u8, 129u8)
        && inverse_pair(127u8, 130u8)) by (bit_vector);
    assert(inverse_pair(128u8, 131u8)
        && inverse_pair(129u8, 126u8)
        && inverse_pair(130u8, 127u8)
        && inverse_pair(131u8, 128u8)
        && inverse_pair(132u8, 150u8)
        && inverse_pair(133u8, 115u8)
        && inverse_pair(134u8, 190u8)
        && inverse_pair(135u8, 86u8)
        && inverse_pair(136u8, 155u8)
        && inverse_pair(137u8, 158u8)
        && inverse_pair(138u8, 149u8)
        && inverse_pair(139u8, 217u8)
        && inverse_pair(140u8, 247u8)
        && inverse_pair(141u8, 2u8)
        && inverse_pair(142u8, 185u8)
        && inverse_pair(143u8, 164u8)
        && inverse_pair(144u8, 222u8)
        && inverse_pair(145u8, 106u8)
        && inverse_pair(146u8, 50u8)
        && inverse_pair(147u8, 109u8)
        && inverse_pair(148u8, 216u8)
        && inverse_pair(149u8, 138u8)
        && inverse_pair(150u8, 132u8)
        && inverse_pair(151u8, 114u8)
        && inverse_pair(152u8, 42u8)
        && inverse_pair(153u8, 20u8)
        && inverse_pair(154u8, 159u8)
        && inverse_pair(155u8, 136u8)
        && inverse_pair(156u8, 249u8)
        && inverse_pair(157u8, 220u8)
        && inverse_pair(158u8, 137u8)
        && inverse_pair(159u8, 154u8)
        && inverse_pair(160u8, 251u8)
        && inverse_pair(161u8, 124u8)
        && inverse_pair(162u8, 46u8)
        && inverse_pair(163u8, 195u8)
        && inverse_pair(164u8, 143u8)
        && inverse_pair(165u8, 184u8)
        && inverse_pair(166u8, 101u8)
        && inverse_pair(167u8, 72u8)
        && inverse_pair(168u8, 38u8)
        && inverse_pair(169u8, 200u8)
        && inverse_pair(170u8, 18u8)
        && inverse_pair(171u8, 74u8)
        && inverse_pair(172u8, 206u8)
        && inverse_pair(173u8, 231u8)
        && inverse_pair(174u8, 210u8)
        && inverse_pair(175u8, 98u8)
        && inverse_pair(176u8, 12u8)
        && inverse_pair(177u8, 224u8)
        && inverse_pair(178u8, 31u8)
        && inverse_pair(179u8, 239u8)
        && inverse_pair(180u8, 17u8)
        && inverse_pair(181u8, 117u8)
        && inverse_pair(182u8, 120u8)
        && inverse_pair(183u8, 113u8)
        && inverse_pair(184u8, 165u8)
        && inverse_pair(185u8, 142u8)
        && inverse_pair(186u8, 118u8)
        && inverse_pair(187u8, 61u8)
        && inverse_pair(188u8, 189u8)
        && inverse_pair(189u8, 188u8)
        && inverse_pair(190u8, 134u8)
        && inverse_pair(191u8, 87u8)) by (bit_vector);
    assert(inverse_pair(192u8, 11u8)
        && inverse_pair(193u8, 40u8)
        && inverse_pair(194u8, 47u8)
        && inverse_pair(195u8, 163u8)
        && inverse_pair(196u8, 218u8)
        && inverse_pair(197u8, 212u8)
        && inverse_pair(198u8, 228u8)
        && inverse_pair(199u8, 15u8)
        && inverse_pair(200u8, 169u8)
        && inverse_pair(201u8, 39u8)
        && inverse_pair(202u8, 83u8)
        && inverse_pair(203u8, 4u8)
        && inverse_pair(204u8, 27u8)
        && inverse_pair(205u8, 252u8)
        && inverse_pair(206u8, 172u8)
        && inverse_pair(207u8, 230u8)
        && inverse_pair(208u8, 122u8)
        && inverse_pair(209u8, 7u8)
        && inverse_pair(210u8, 174u8)
        && inverse_pair(211u8, 99u8)
        && inverse_pair(212u8, 197u8)
        && inverse_pair(213u8, 219u8)
        && inverse_pair(214u8, 226u8)
        && inverse_pair(215u8, 234u8)
        && inverse_pair(216u8, 148u8)
        && inverse_pair(217u8, 139u8)
        && inverse_pair(218u8, 196u8)
        && inverse_pair(219u8, 213u8)
        && inverse_pair(220u8, 157u8)
        && inverse_pair(221u8, 248u8)
        && inverse_pair(222u8, 144u8)
        && inverse_pair(223u8, 107u8)
        && inverse_pair(224u8, 177u8)
        && inverse_pair(225u8, 13u8)
        && inverse_pair(226u8, 214u8)
        && inverse_pair(227u8, 235u8)
        && inverse_pair(228u8, 198u8)
        && inverse_pair(229u8, 14u8)
        && inverse_pair(230u8, 207u8)
        && inverse_pair(231u8, 173u8)
        && inverse_pair(232u8, 8u8)
        && inverse_pair(233u8, 78u8)
        && inverse_pair(234u8, 215u8)
        && inverse_pair(235u8, 227u8)
        && inverse_pair(236u8, 93u8)
        && inverse_pair(237u8, 80u8)
        && inverse_pair(238u8, 30u8)
        && inverse_pair(239u8, 179u8)
        && inverse_pair(240u8, 91u8)
        && inverse_pair(241u8, 35u8)
        && inverse_pair(242u8, 56u8)
        && inverse_pair(243u8, 52u8)
        && inverse_pair(244u8, 104u8)
        && inverse_pair(245u8, 70u8)
        && inverse_pair(246u8, 3u8)
        && inverse_pair(247u8, 140u8)
        && inverse_pair(248u8, 221u8)
        && inverse_pair(249u8, 156u8)
        && inverse_pair(250u8, 125u8)
        && inverse_pair(251u8, 160u8)
        && inverse_pair(252u8, 205u8)
        && inverse_pair(253u8, 26u8)
        && inverse_pair(254u8, 65u8)
        && inverse_pair(255u8, 28u8)) by (bit_vector);
    assert forall|i: int| 0 <= i < 256 implies #[trigger] INV_TABLE@[i] == gf_inv(i as u8) by {
        if i == 0 {
            lemma_inv(0u8);
        } else {
            assert(i == 1 || i == 2 || i == 3 || i == 4 || i == 5 || i == 6 || i == 7 || i == 8 || i == 9 || i == 10 || i == 11 || i == 12 || i == 13 || i == 14 || i == 15 || i == 16 || i == 17 || i == 18 || i == 19 || i == 20 || i == 21 || i == 22 || i == 23 || i == 24 || i == 25 || i == 26 || i == 27 || i == 28 || i == 29 || i == 30 || i == 31 || i == 32 || i == 33 || i == 34 || i == 35 || i == 36 || i == 37 || i == 38 || i == 39 || i == 40 || i == 41 || i == 42 || i == 43 || i == 44 || i == 45 || i == 46 || i == 47 || i == 48 || i == 49 || i == 50 || i == 51 || i == 52 || i == 53 || i == 54 || i == 55 || i == 56 || i == 57 || i == 58 || i == 59 || i == 60 || i == 61 || i == 62 || i == 63 || i == 64 || i == 65 || i == 66 || i == 67 || i == 68 || i == 69 || i == 70 || i == 71 || i == 72 || i == 73 || i == 74 || i == 75 || i == 76 || i == 77 || i == 78 || i == 79 || i == 80 || i == 81 || i == 82 || i == 83 || i == 84 || i == 85 || i == 86 || i == 87 || i == 88 || i == 89 || i == 90 || i == 91 || i == 92 || i == 93 || i == 94 || i == 95 || i == 96 || i == 97 || i == 98 || i == 99 || i == 100 || i == 101 || i == 102 || i == 103 || i == 104 || i == 105 || i == 106 || i == 107 || i == 108 || i == 109 || i == 110 || i == 111 || i == 112 || i == 113 || i == 114 || i == 115 || i == 116 || i == 117 || i == 118 || i == 119 || i == 120 || i == 121 || i == 122 || i == 123 || i == 124 || i == 125 || i == 126 || i == 127 || i == 128 || i == 129 || i == 130 || i == 131 || i == 132 || i == 133 || i == 134 || i == 135 || i == 136 || i == 137 || i == 138 || i == 139 || i == 140 || i == 141 || i == 142 || i == 143 || i == 144 || i == 145 || i == 146 || i == 147 || i == 148 || i == 149 || i == 150 || i == 151 || i == 152 || i == 153 || i == 154 || i == 155 || i == 156 || i == 157 || i == 158 || i == 159 || i == 160 || i == 161 || i == 162 || i == 163 || i == 164 || i == 165 || i == 166 || i == 167 || i == 168 || i == 169 || i == 170 || i == 171 || i == 172 || i == 173 || i == 174 || i == 175 || i == 176 || i == 177 || i == 178 || i == 179 || i == 180 || i == 181 || i == 182 || i == 183 || i == 184 || i == 185 || i == 186 || i == 187 || i == 188 || i == 189 || i == 190 || i == 191 || i == 192 || i == 193 || i == 194 || i == 195 || i == 196 || i == 197 || i == 198 || i == 199 || i == 200 || i == 201 || i == 202 || i == 203 || i == 204 || i == 205 || i == 206 || i == 207 || i == 208 || i == 209 || i == 210 || i == 211 || i == 212 || i == 213 || i == 214 || i == 215 || i == 216 || i == 217 || i == 218 || i == 219 || i == 220 || i == 221 || i == 222 || i == 223 || i == 224 || i == 225 || i == 226 || i == 227 || i == 228 || i == 229 || i == 230 || i == 231 || i == 232 || i == 233 || i == 234 || i == 235 || i == 236 || i == 237 || i == 238 || i == 239 || i == 240 || i == 241 || i == 242 || i == 243 || i == 244 || i == 245 || i == 246 || i == 247 || i == 248 || i == 249 || i == 250 || i == 251 || i == 252 || i == 253 || i == 254 || i == 255);
            assert(inverse_pair(i as u8, INV_TABLE@[i]));
            lemma_inv_unique(i as u8, INV_TABLE@[i]);
        }
    }
}

} // verus!
