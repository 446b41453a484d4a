//! Every row of the romaji table counts: no sequence stands twice.

use vstd::prelude::*;

use super::table::{MAPPINGS, MAPPING_COUNT};
use super::trie;

verus! {

/// The number of a character of a text; 0 behind its end.
spec fn digit(s: Seq<char>, i: int) -> int {
    if i < s.len() {
        s[i] as int
    } else {
        0
    }
}

/// The first four characters of a text as one number.
spec fn number(s: Seq<char>) -> int {
    digit(s, 0) + 0x80 * digit(s, 1) + 0x4000 * digit(s, 2) + 0x20_0000 * digit(s, 3)
}

/// Where a number from row 0 on stands.
spec fn place_from_0(n: int) -> int {
    if n == 0x61 {
        0
    } else if n == 0x69 {
        1
    } else if n == 0x75 {
        2
    } else if n == 0x65 {
        3
    } else if n == 0x6f {
        4
    } else if n == 0x30eb {
        5
    } else if n == 0x34eb {
        6
    } else if n == 0x3aeb {
        7
    } else if n == 0x32eb {
        8
    } else if n == 0x37eb {
        9
    } else if n == 0x30e7 {
        10
    } else if n == 0x34e7 {
        11
    } else if n == 0x3ae7 {
        12
    } else if n == 0x32e7 {
        13
    } else if n == 0x37e7 {
        14
    } else if n == 0x30f3 {
        15
    } else if n == 0x34f3 {
        16
    } else if n == 0x3af3 {
        17
    } else if n == 0x32f3 {
        18
    } else if n == 0x37f3 {
        19
    } else if n == 0x30fa {
        20
    } else if n == 0x34fa {
        21
    } else if n == 0x3afa {
        22
    } else if n == 0x32fa {
        23
    } else if n == 0x37fa {
        24
    } else if n == 0x30f4 {
        25
    } else if n == 0x34f4 {
        26
    } else if n == 0x3af4 {
        27
    } else if n == 0x32f4 {
        28
    } else if n == 0x37f4 {
        29
    } else if n == 0x30e4 {
        30
    } else if n == 0x34e4 {
        31
    } else if n == 0x3ae4 {
        32
    } else if n == 0x32e4 {
        33
    } else if n == 0x37e4 {
        34
    } else if n == 0x30ee {
        35
    } else if n == 0x34ee {
        36
    } else if n == 0x3aee {
        37
    } else if n == 0x32ee {
        38
    } else if n == 0x37ee {
        39
    } else {
        place_from_40(n)
    }
}

/// Where a number from row 40 on stands.
spec fn place_from_40(n: int) -> int {
    if n == 0x30e8 {
        40
    } else if n == 0x34e8 {
        41
    } else if n == 0x3ae8 {
        42
    } else if n == 0x32e8 {
        43
    } else if n == 0x37e8 {
        44
    } else if n == 0x30e2 {
        45
    } else if n == 0x34e2 {
        46
    } else if n == 0x3ae2 {
        47
    } else if n == 0x32e2 {
        48
    } else if n == 0x37e2 {
        49
    } else if n == 0x30f0 {
        50
    } else if n == 0x34f0 {
        51
    } else if n == 0x3af0 {
        52
    } else if n == 0x32f0 {
        53
    } else if n == 0x37f0 {
        54
    } else if n == 0x30ed {
        55
    } else if n == 0x34ed {
        56
    } else if n == 0x3aed {
        57
    } else if n == 0x32ed {
        58
    } else if n == 0x37ed {
        59
    } else if n == 0x30f9 {
        60
    } else if n == 0x3af9 {
        61
    } else if n == 0x32f9 {
        62
    } else if n == 0x37f9 {
        63
    } else if n == 0x30f2 {
        64
    } else if n == 0x34f2 {
        65
    } else if n == 0x3af2 {
        66
    } else if n == 0x32f2 {
        67
    } else if n == 0x37f2 {
        68
    } else if n == 0x30f7 {
        69
    } else if n == 0x34f7 {
        70
    } else if n == 0x3af7 {
        71
    } else if n == 0x32f7 {
        72
    } else if n == 0x37f7 {
        73
    } else if n == 0x376e {
        74
    } else if n == 0x13ee {
        75
    } else if n == 0x3778 {
        76
    } else if n == 0x1a7473 {
        77
    } else if n == 0x1a7463 {
        78
    } else if n == 0x1d79f4 {
        79
    } else {
        place_from_80(n)
    }
}

/// Where a number from row 80 on stands.
spec fn place_from_80(n: int) -> int {
    if n == 0x3ae6 {
        80
    } else if n == 0x34ea {
        81
    } else if n == 0x187ceb {
        82
    } else if n == 0x1a7ceb {
        83
    } else if n == 0x1d7ceb {
        84
    } else if n == 0x197ceb {
        85
    } else if n == 0x1bfceb {
        86
    } else if n == 0x187ce7 {
        87
    } else if n == 0x1a7ce7 {
        88
    } else if n == 0x1d7ce7 {
        89
    } else if n == 0x197ce7 {
        90
    } else if n == 0x1bfce7 {
        91
    } else if n == 0x187cf3 {
        92
    } else if n == 0x1a7cf3 {
        93
    } else if n == 0x1d7cf3 {
        94
    } else if n == 0x197cf3 {
        95
    } else if n == 0x1bfcf3 {
        96
    } else if n == 0x187cfa {
        97
    } else if n == 0x1a7cfa {
        98
    } else if n == 0x1d7cfa {
        99
    } else if n == 0x197cfa {
        100
    } else if n == 0x1bfcfa {
        101
    } else if n == 0x187cea {
        102
    } else if n == 0x1a7cea {
        103
    } else if n == 0x1d7cea {
        104
    } else if n == 0x197cea {
        105
    } else if n == 0x1bfcea {
        106
    } else if n == 0x187cf4 {
        107
    } else if n == 0x1a7cf4 {
        108
    } else if n == 0x1d7cf4 {
        109
    } else if n == 0x197cf4 {
        110
    } else if n == 0x1bfcf4 {
        111
    } else if n == 0x187ce4 {
        112
    } else if n == 0x1a7ce4 {
        113
    } else if n == 0x1d7ce4 {
        114
    } else if n == 0x197ce4 {
        115
    } else if n == 0x1bfce4 {
        116
    } else if n == 0x187cee {
        117
    } else if n == 0x1a7cee {
        118
    } else if n == 0x1d7cee {
        119
    } else {
        place_from_120(n)
    }
}

/// Where a number from row 120 on stands.
spec fn place_from_120(n: int) -> int {
    if n == 0x197cee {
        120
    } else if n == 0x1bfcee {
        121
    } else if n == 0x187ce8 {
        122
    } else if n == 0x1a7ce8 {
        123
    } else if n == 0x1d7ce8 {
        124
    } else if n == 0x197ce8 {
        125
    } else if n == 0x1bfce8 {
        126
    } else if n == 0x187ce2 {
        127
    } else if n == 0x1a7ce2 {
        128
    } else if n == 0x1d7ce2 {
        129
    } else if n == 0x197ce2 {
        130
    } else if n == 0x1bfce2 {
        131
    } else if n == 0x187cf0 {
        132
    } else if n == 0x1a7cf0 {
        133
    } else if n == 0x1d7cf0 {
        134
    } else if n == 0x197cf0 {
        135
    } else if n == 0x1bfcf0 {
        136
    } else if n == 0x187ced {
        137
    } else if n == 0x1a7ced {
        138
    } else if n == 0x1d7ced {
        139
    } else if n == 0x197ced {
        140
    } else if n == 0x1bfced {
        141
    } else if n == 0x187cf2 {
        142
    } else if n == 0x1a7cf2 {
        143
    } else if n == 0x1d7cf2 {
        144
    } else if n == 0x197cf2 {
        145
    } else if n == 0x1bfcf2 {
        146
    } else if n == 0x187ce3 {
        147
    } else if n == 0x1a7ce3 {
        148
    } else if n == 0x1d7ce3 {
        149
    } else if n == 0x197ce3 {
        150
    } else if n == 0x1bfce3 {
        151
    } else if n == 0x187473 {
        152
    } else if n == 0x1d7473 {
        153
    } else if n == 0x197473 {
        154
    } else if n == 0x1bf473 {
        155
    } else if n == 0x187463 {
        156
    } else if n == 0x1d7463 {
        157
    } else if n == 0x197463 {
        158
    } else if n == 0x1bf463 {
        159
    } else {
        place_from_160(n)
    }
}

/// Where a number from row 160 on stands.
spec fn place_from_160(n: int) -> int {
    if n == 0x30ea {
        160
    } else if n == 0x3aea {
        161
    } else if n == 0x32ea {
        162
    } else if n == 0x37ea {
        163
    } else if n == 0x187474 {
        164
    } else if n == 0x1a7474 {
        165
    } else if n == 0x1d7474 {
        166
    } else if n == 0x197474 {
        167
    } else if n == 0x1bf474 {
        168
    } else if n == 0x187464 {
        169
    } else if n == 0x1a7464 {
        170
    } else if n == 0x1d7464 {
        171
    } else if n == 0x197464 {
        172
    } else if n == 0x1bf464 {
        173
    } else if n == 0x187bf4 {
        174
    } else if n == 0x1a7bf4 {
        175
    } else if n == 0x1d7bf4 {
        176
    } else if n == 0x197bf4 {
        177
    } else if n == 0x1bfbf4 {
        178
    } else if n == 0x187be4 {
        179
    } else if n == 0x1a7be4 {
        180
    } else if n == 0x1d7be4 {
        181
    } else if n == 0x197be4 {
        182
    } else if n == 0x1bfbe4 {
        183
    } else if n == 0x1879f4 {
        184
    } else if n == 0x1a79f4 {
        185
    } else if n == 0x1979f4 {
        186
    } else if n == 0x1bf9f4 {
        187
    } else if n == 0x30e6 {
        188
    } else if n == 0x34e6 {
        189
    } else if n == 0x32e6 {
        190
    } else if n == 0x37e6 {
        191
    } else if n == 0x187ce6 {
        192
    } else if n == 0x1d7ce6 {
        193
    } else if n == 0x1bfce6 {
        194
    } else if n == 0x30f6 {
        195
    } else if n == 0x34f6 {
        196
    } else if n == 0x3af6 {
        197
    } else if n == 0x32f6 {
        198
    } else if n == 0x37f6 {
        199
    } else {
        place_from_200(n)
    }
}

/// Where a number from row 200 on stands.
spec fn place_from_200(n: int) -> int {
    if n == 0x187cf6 {
        200
    } else if n == 0x1d7cf6 {
        201
    } else if n == 0x1bfcf6 {
        202
    } else if n == 0x30f1 {
        203
    } else if n == 0x34f1 {
        204
    } else if n == 0x3af1 {
        205
    } else if n == 0x32f1 {
        206
    } else if n == 0x37f1 {
        207
    } else if n == 0x187beb {
        208
    } else if n == 0x1a7beb {
        209
    } else if n == 0x1d7beb {
        210
    } else if n == 0x197beb {
        211
    } else if n == 0x1bfbeb {
        212
    } else if n == 0x187be7 {
        213
    } else if n == 0x1a7be7 {
        214
    } else if n == 0x1d7be7 {
        215
    } else if n == 0x197be7 {
        216
    } else if n == 0x1bfbe7 {
        217
    } else if n == 0x187bf3 {
        218
    } else if n == 0x1a7bf3 {
        219
    } else if n == 0x1d7bf3 {
        220
    } else if n == 0x197bf3 {
        221
    } else if n == 0x1bfbf3 {
        222
    } else if n == 0x187477 {
        223
    } else if n == 0x1a7477 {
        224
    } else if n == 0x1d7477 {
        225
    } else if n == 0x197477 {
        226
    } else if n == 0x1bf477 {
        227
    } else if n == 0x1a7cf7 {
        228
    } else if n == 0x197cf7 {
        229
    } else if n == 0x30e3 {
        230
    } else if n == 0x34e3 {
        231
    } else if n == 0x3ae3 {
        232
    } else if n == 0x32e3 {
        233
    } else if n == 0x37e3 {
        234
    } else if n == 0x30f8 {
        235
    } else if n == 0x34f8 {
        236
    } else if n == 0x3af8 {
        237
    } else if n == 0x32f8 {
        238
    } else if n == 0x37f8 {
        239
    } else {
        place_from_240(n)
    }
}

/// Where a number from row 240 on stands.
spec fn place_from_240(n: int) -> int {
    if n == 0x187cf8 {
        240
    } else if n == 0x1d7cf8 {
        241
    } else if n == 0x1bfcf8 {
        242
    } else if n == 0x1d7a78 {
        243
    } else if n == 0xebcfa78 {
        244
    } else if n == 0x187bf8 {
        245
    } else if n == 0x1875f8 {
        246
    } else if n == 0x1975f8 {
        247
    } else if n == 0x30ec {
        248
    } else if n == 0x34ec {
        249
    } else if n == 0x3aec {
        250
    } else if n == 0x32ec {
        251
    } else if n == 0x37ec {
        252
    } else if n == 0x187cec {
        253
    } else if n == 0x1d7cec {
        254
    } else if n == 0x1bfcec {
        255
    } else if n == 0x1d7a6c {
        256
    } else if n == 0xebcfa6c {
        257
    } else if n == 0x187bec {
        258
    } else if n == 0x1875ec {
        259
    } else if n == 0x1975ec {
        260
    } else if n == 0x2d {
        261
    } else if n == 0x2e {
        262
    } else if n == 0x2c {
        263
    } else if n == 0x3f {
        264
    } else if n == 0x21 {
        265
    } else if n == 0x5b {
        266
    } else if n == 0x5d {
        267
    } else if n == 0x2f {
        268
    } else if n == 0x7e {
        269
    } else if n == 0x347a {
        270
    } else if n == 0x357a {
        271
    } else if n == 0x35fa {
        272
    } else if n == 0x367a {
        273
    } else if n == 0x177a {
        274
    } else if n == 0x167a {
        275
    } else if n == 0x17fa {
        276
    } else if n == 0x16fa {
        277
    } else if n == 0x2dfa {
        278
    } else if n == 0x2efa {
        279
    } else {
        MAPPING_COUNT as int
    }
}

proof fn lemma_rows_from_0(i: int)
    requires
        0 <= i < 40,
    ensures
        place_from_0(number(MAPPINGS@[i].0@)) == i,
{
    reveal_strlit("a");
    reveal_strlit("i");
    reveal_strlit("u");
    reveal_strlit("e");
    reveal_strlit("o");
    reveal_strlit("ka");
    reveal_strlit("ki");
    reveal_strlit("ku");
    reveal_strlit("ke");
    reveal_strlit("ko");
    reveal_strlit("ga");
    reveal_strlit("gi");
    reveal_strlit("gu");
    reveal_strlit("ge");
    reveal_strlit("go");
    reveal_strlit("sa");
    reveal_strlit("si");
    reveal_strlit("su");
    reveal_strlit("se");
    reveal_strlit("so");
    reveal_strlit("za");
    reveal_strlit("zi");
    reveal_strlit("zu");
    reveal_strlit("ze");
    reveal_strlit("zo");
    reveal_strlit("ta");
    reveal_strlit("ti");
    reveal_strlit("tu");
    reveal_strlit("te");
    reveal_strlit("to");
    reveal_strlit("da");
    reveal_strlit("di");
    reveal_strlit("du");
    reveal_strlit("de");
    reveal_strlit("do");
    reveal_strlit("na");
    reveal_strlit("ni");
    reveal_strlit("nu");
    reveal_strlit("ne");
    reveal_strlit("no");
    assert(place_from_0(number(MAPPINGS@[0].0@)) == 0);
    assert(place_from_0(number(MAPPINGS@[1].0@)) == 1);
    assert(place_from_0(number(MAPPINGS@[2].0@)) == 2);
    assert(place_from_0(number(MAPPINGS@[3].0@)) == 3);
    assert(place_from_0(number(MAPPINGS@[4].0@)) == 4);
    assert(place_from_0(number(MAPPINGS@[5].0@)) == 5);
    assert(place_from_0(number(MAPPINGS@[6].0@)) == 6);
    assert(place_from_0(number(MAPPINGS@[7].0@)) == 7);
    assert(place_from_0(number(MAPPINGS@[8].0@)) == 8);
    assert(place_from_0(number(MAPPINGS@[9].0@)) == 9);
    assert(place_from_0(number(MAPPINGS@[10].0@)) == 10);
    assert(place_from_0(number(MAPPINGS@[11].0@)) == 11);
    assert(place_from_0(number(MAPPINGS@[12].0@)) == 12);
    assert(place_from_0(number(MAPPINGS@[13].0@)) == 13);
    assert(place_from_0(number(MAPPINGS@[14].0@)) == 14);
    assert(place_from_0(number(MAPPINGS@[15].0@)) == 15);
    assert(place_from_0(number(MAPPINGS@[16].0@)) == 16);
    assert(place_from_0(number(MAPPINGS@[17].0@)) == 17);
    assert(place_from_0(number(MAPPINGS@[18].0@)) == 18);
    assert(place_from_0(number(MAPPINGS@[19].0@)) == 19);
    assert(place_from_0(number(MAPPINGS@[20].0@)) == 20);
    assert(place_from_0(number(MAPPINGS@[21].0@)) == 21);
    assert(place_from_0(number(MAPPINGS@[22].0@)) == 22);
    assert(place_from_0(number(MAPPINGS@[23].0@)) == 23);
    assert(place_from_0(number(MAPPINGS@[24].0@)) == 24);
    assert(place_from_0(number(MAPPINGS@[25].0@)) == 25);
    assert(place_from_0(number(MAPPINGS@[26].0@)) == 26);
    assert(place_from_0(number(MAPPINGS@[27].0@)) == 27);
    assert(place_from_0(number(MAPPINGS@[28].0@)) == 28);
    assert(place_from_0(number(MAPPINGS@[29].0@)) == 29);
    assert(place_from_0(number(MAPPINGS@[30].0@)) == 30);
    assert(place_from_0(number(MAPPINGS@[31].0@)) == 31);
    assert(place_from_0(number(MAPPINGS@[32].0@)) == 32);
    assert(place_from_0(number(MAPPINGS@[33].0@)) == 33);
    assert(place_from_0(number(MAPPINGS@[34].0@)) == 34);
    assert(place_from_0(number(MAPPINGS@[35].0@)) == 35);
    assert(place_from_0(number(MAPPINGS@[36].0@)) == 36);
    assert(place_from_0(number(MAPPINGS@[37].0@)) == 37);
    assert(place_from_0(number(MAPPINGS@[38].0@)) == 38);
    assert(place_from_0(number(MAPPINGS@[39].0@)) == 39);
}

proof fn lemma_rows_from_40(i: int)
    requires
        40 <= i < 80,
    ensures
        place_from_0(number(MAPPINGS@[i].0@)) == i,
{
    reveal_strlit("ha");
    reveal_strlit("hi");
    reveal_strlit("hu");
    reveal_strlit("he");
    reveal_strlit("ho");
    reveal_strlit("ba");
    reveal_strlit("bi");
    reveal_strlit("bu");
    reveal_strlit("be");
    reveal_strlit("bo");
    reveal_strlit("pa");
    reveal_strlit("pi");
    reveal_strlit("pu");
    reveal_strlit("pe");
    reveal_strlit("po");
    reveal_strlit("ma");
    reveal_strlit("mi");
    reveal_strlit("mu");
    reveal_strlit("me");
    reveal_strlit("mo");
    reveal_strlit("ya");
    reveal_strlit("yu");
    reveal_strlit("ye");
    reveal_strlit("yo");
    reveal_strlit("ra");
    reveal_strlit("ri");
    reveal_strlit("ru");
    reveal_strlit("re");
    reveal_strlit("ro");
    reveal_strlit("wa");
    reveal_strlit("wi");
    reveal_strlit("wu");
    reveal_strlit("we");
    reveal_strlit("wo");
    reveal_strlit("nn");
    reveal_strlit("n'");
    reveal_strlit("xn");
    reveal_strlit("shi");
    reveal_strlit("chi");
    reveal_strlit("tsu");
    assert(place_from_0(number(MAPPINGS@[40].0@)) == 40);
    assert(place_from_0(number(MAPPINGS@[41].0@)) == 41);
    assert(place_from_0(number(MAPPINGS@[42].0@)) == 42);
    assert(place_from_0(number(MAPPINGS@[43].0@)) == 43);
    assert(place_from_0(number(MAPPINGS@[44].0@)) == 44);
    assert(place_from_0(number(MAPPINGS@[45].0@)) == 45);
    assert(place_from_0(number(MAPPINGS@[46].0@)) == 46);
    assert(place_from_0(number(MAPPINGS@[47].0@)) == 47);
    assert(place_from_0(number(MAPPINGS@[48].0@)) == 48);
    assert(place_from_0(number(MAPPINGS@[49].0@)) == 49);
    assert(place_from_0(number(MAPPINGS@[50].0@)) == 50);
    assert(place_from_0(number(MAPPINGS@[51].0@)) == 51);
    assert(place_from_0(number(MAPPINGS@[52].0@)) == 52);
    assert(place_from_0(number(MAPPINGS@[53].0@)) == 53);
    assert(place_from_0(number(MAPPINGS@[54].0@)) == 54);
    assert(place_from_0(number(MAPPINGS@[55].0@)) == 55);
    assert(place_from_0(number(MAPPINGS@[56].0@)) == 56);
    assert(place_from_0(number(MAPPINGS@[57].0@)) == 57);
    assert(place_from_0(number(MAPPINGS@[58].0@)) == 58);
    assert(place_from_0(number(MAPPINGS@[59].0@)) == 59);
    assert(place_from_0(number(MAPPINGS@[60].0@)) == 60);
    assert(place_from_0(number(MAPPINGS@[61].0@)) == 61);
    assert(place_from_0(number(MAPPINGS@[62].0@)) == 62);
    assert(place_from_0(number(MAPPINGS@[63].0@)) == 63);
    assert(place_from_0(number(MAPPINGS@[64].0@)) == 64);
    assert(place_from_0(number(MAPPINGS@[65].0@)) == 65);
    assert(place_from_0(number(MAPPINGS@[66].0@)) == 66);
    assert(place_from_0(number(MAPPINGS@[67].0@)) == 67);
    assert(place_from_0(number(MAPPINGS@[68].0@)) == 68);
    assert(place_from_0(number(MAPPINGS@[69].0@)) == 69);
    assert(place_from_0(number(MAPPINGS@[70].0@)) == 70);
    assert(place_from_0(number(MAPPINGS@[71].0@)) == 71);
    assert(place_from_0(number(MAPPINGS@[72].0@)) == 72);
    assert(place_from_0(number(MAPPINGS@[73].0@)) == 73);
    assert(place_from_0(number(MAPPINGS@[74].0@)) == 74);
    assert(place_from_0(number(MAPPINGS@[75].0@)) == 75);
    assert(place_from_0(number(MAPPINGS@[76].0@)) == 76);
    assert(place_from_0(number(MAPPINGS@[77].0@)) == 77);
    assert(place_from_0(number(MAPPINGS@[78].0@)) == 78);
    assert(place_from_0(number(MAPPINGS@[79].0@)) == 79);
}

proof fn lemma_rows_from_80(i: int)
    requires
        80 <= i < 120,
    ensures
        place_from_0(number(MAPPINGS@[i].0@)) == i,
{
    reveal_strlit("fu");
    reveal_strlit("ji");
    reveal_strlit("kya");
    reveal_strlit("kyi");
    reveal_strlit("kyu");
    reveal_strlit("kye");
    reveal_strlit("kyo");
    reveal_strlit("gya");
    reveal_strlit("gyi");
    reveal_strlit("gyu");
    reveal_strlit("gye");
    reveal_strlit("gyo");
    reveal_strlit("sya");
    reveal_strlit("syi");
    reveal_strlit("syu");
    reveal_strlit("sye");
    reveal_strlit("syo");
    reveal_strlit("zya");
    reveal_strlit("zyi");
    reveal_strlit("zyu");
    reveal_strlit("zye");
    reveal_strlit("zyo");
    reveal_strlit("jya");
    reveal_strlit("jyi");
    reveal_strlit("jyu");
    reveal_strlit("jye");
    reveal_strlit("jyo");
    reveal_strlit("tya");
    reveal_strlit("tyi");
    reveal_strlit("tyu");
    reveal_strlit("tye");
    reveal_strlit("tyo");
    reveal_strlit("dya");
    reveal_strlit("dyi");
    reveal_strlit("dyu");
    reveal_strlit("dye");
    reveal_strlit("dyo");
    reveal_strlit("nya");
    reveal_strlit("nyi");
    reveal_strlit("nyu");
    assert(place_from_0(number(MAPPINGS@[80].0@)) == 80);
    assert(place_from_0(number(MAPPINGS@[81].0@)) == 81);
    assert(place_from_0(number(MAPPINGS@[82].0@)) == 82);
    assert(place_from_0(number(MAPPINGS@[83].0@)) == 83);
    assert(place_from_0(number(MAPPINGS@[84].0@)) == 84);
    assert(place_from_0(number(MAPPINGS@[85].0@)) == 85);
    assert(place_from_0(number(MAPPINGS@[86].0@)) == 86);
    assert(place_from_0(number(MAPPINGS@[87].0@)) == 87);
    assert(place_from_0(number(MAPPINGS@[88].0@)) == 88);
    assert(place_from_0(number(MAPPINGS@[89].0@)) == 89);
    assert(place_from_0(number(MAPPINGS@[90].0@)) == 90);
    assert(place_from_0(number(MAPPINGS@[91].0@)) == 91);
    assert(place_from_0(number(MAPPINGS@[92].0@)) == 92);
    assert(place_from_0(number(MAPPINGS@[93].0@)) == 93);
    assert(place_from_0(number(MAPPINGS@[94].0@)) == 94);
    assert(place_from_0(number(MAPPINGS@[95].0@)) == 95);
    assert(place_from_0(number(MAPPINGS@[96].0@)) == 96);
    assert(place_from_0(number(MAPPINGS@[97].0@)) == 97);
    assert(place_from_0(number(MAPPINGS@[98].0@)) == 98);
    assert(place_from_0(number(MAPPINGS@[99].0@)) == 99);
    assert(place_from_0(number(MAPPINGS@[100].0@)) == 100);
    assert(place_from_0(number(MAPPINGS@[101].0@)) == 101);
    assert(place_from_0(number(MAPPINGS@[102].0@)) == 102);
    assert(place_from_0(number(MAPPINGS@[103].0@)) == 103);
    assert(place_from_0(number(MAPPINGS@[104].0@)) == 104);
    assert(place_from_0(number(MAPPINGS@[105].0@)) == 105);
    assert(place_from_0(number(MAPPINGS@[106].0@)) == 106);
    assert(place_from_0(number(MAPPINGS@[107].0@)) == 107);
    assert(place_from_0(number(MAPPINGS@[108].0@)) == 108);
    assert(place_from_0(number(MAPPINGS@[109].0@)) == 109);
    assert(place_from_0(number(MAPPINGS@[110].0@)) == 110);
    assert(place_from_0(number(MAPPINGS@[111].0@)) == 111);
    assert(place_from_0(number(MAPPINGS@[112].0@)) == 112);
    assert(place_from_0(number(MAPPINGS@[113].0@)) == 113);
    assert(place_from_0(number(MAPPINGS@[114].0@)) == 114);
    assert(place_from_0(number(MAPPINGS@[115].0@)) == 115);
    assert(place_from_0(number(MAPPINGS@[116].0@)) == 116);
    assert(place_from_0(number(MAPPINGS@[117].0@)) == 117);
    assert(place_from_0(number(MAPPINGS@[118].0@)) == 118);
    assert(place_from_0(number(MAPPINGS@[119].0@)) == 119);
}

proof fn lemma_rows_from_120(i: int)
    requires
        120 <= i < 160,
    ensures
        place_from_0(number(MAPPINGS@[i].0@)) == i,
{
    reveal_strlit("nye");
    reveal_strlit("nyo");
    reveal_strlit("hya");
    reveal_strlit("hyi");
    reveal_strlit("hyu");
    reveal_strlit("hye");
    reveal_strlit("hyo");
    reveal_strlit("bya");
    reveal_strlit("byi");
    reveal_strlit("byu");
    reveal_strlit("bye");
    reveal_strlit("byo");
    reveal_strlit("pya");
    reveal_strlit("pyi");
    reveal_strlit("pyu");
    reveal_strlit("pye");
    reveal_strlit("pyo");
    reveal_strlit("mya");
    reveal_strlit("myi");
    reveal_strlit("myu");
    reveal_strlit("mye");
    reveal_strlit("myo");
    reveal_strlit("rya");
    reveal_strlit("ryi");
    reveal_strlit("ryu");
    reveal_strlit("rye");
    reveal_strlit("ryo");
    reveal_strlit("cya");
    reveal_strlit("cyi");
    reveal_strlit("cyu");
    reveal_strlit("cye");
    reveal_strlit("cyo");
    reveal_strlit("sha");
    reveal_strlit("shu");
    reveal_strlit("she");
    reveal_strlit("sho");
    reveal_strlit("cha");
    reveal_strlit("chu");
    reveal_strlit("che");
    reveal_strlit("cho");
    assert(place_from_0(number(MAPPINGS@[120].0@)) == 120);
    assert(place_from_0(number(MAPPINGS@[121].0@)) == 121);
    assert(place_from_0(number(MAPPINGS@[122].0@)) == 122);
    assert(place_from_0(number(MAPPINGS@[123].0@)) == 123);
    assert(place_from_0(number(MAPPINGS@[124].0@)) == 124);
    assert(place_from_0(number(MAPPINGS@[125].0@)) == 125);
    assert(place_from_0(number(MAPPINGS@[126].0@)) == 126);
    assert(place_from_0(number(MAPPINGS@[127].0@)) == 127);
    assert(place_from_0(number(MAPPINGS@[128].0@)) == 128);
    assert(place_from_0(number(MAPPINGS@[129].0@)) == 129);
    assert(place_from_0(number(MAPPINGS@[130].0@)) == 130);
    assert(place_from_0(number(MAPPINGS@[131].0@)) == 131);
    assert(place_from_0(number(MAPPINGS@[132].0@)) == 132);
    assert(place_from_0(number(MAPPINGS@[133].0@)) == 133);
    assert(place_from_0(number(MAPPINGS@[134].0@)) == 134);
    assert(place_from_0(number(MAPPINGS@[135].0@)) == 135);
    assert(place_from_0(number(MAPPINGS@[136].0@)) == 136);
    assert(place_from_0(number(MAPPINGS@[137].0@)) == 137);
    assert(place_from_0(number(MAPPINGS@[138].0@)) == 138);
    assert(place_from_0(number(MAPPINGS@[139].0@)) == 139);
    assert(place_from_0(number(MAPPINGS@[140].0@)) == 140);
    assert(place_from_0(number(MAPPINGS@[141].0@)) == 141);
    assert(place_from_0(number(MAPPINGS@[142].0@)) == 142);
    assert(place_from_0(number(MAPPINGS@[143].0@)) == 143);
    assert(place_from_0(number(MAPPINGS@[144].0@)) == 144);
    assert(place_from_0(number(MAPPINGS@[145].0@)) == 145);
    assert(place_from_0(number(MAPPINGS@[146].0@)) == 146);
    assert(place_from_0(number(MAPPINGS@[147].0@)) == 147);
    assert(place_from_0(number(MAPPINGS@[148].0@)) == 148);
    assert(place_from_0(number(MAPPINGS@[149].0@)) == 149);
    assert(place_from_0(number(MAPPINGS@[150].0@)) == 150);
    assert(place_from_0(number(MAPPINGS@[151].0@)) == 151);
    assert(place_from_0(number(MAPPINGS@[152].0@)) == 152);
    assert(place_from_0(number(MAPPINGS@[153].0@)) == 153);
    assert(place_from_0(number(MAPPINGS@[154].0@)) == 154);
    assert(place_from_0(number(MAPPINGS@[155].0@)) == 155);
    assert(place_from_0(number(MAPPINGS@[156].0@)) == 156);
    assert(place_from_0(number(MAPPINGS@[157].0@)) == 157);
    assert(place_from_0(number(MAPPINGS@[158].0@)) == 158);
    assert(place_from_0(number(MAPPINGS@[159].0@)) == 159);
}

proof fn lemma_rows_from_160(i: int)
    requires
        160 <= i < 200,
    ensures
        place_from_0(number(MAPPINGS@[i].0@)) == i,
{
    reveal_strlit("ja");
    reveal_strlit("ju");
    reveal_strlit("je");
    reveal_strlit("jo");
    reveal_strlit("tha");
    reveal_strlit("thi");
    reveal_strlit("thu");
    reveal_strlit("the");
    reveal_strlit("tho");
    reveal_strlit("dha");
    reveal_strlit("dhi");
    reveal_strlit("dhu");
    reveal_strlit("dhe");
    reveal_strlit("dho");
    reveal_strlit("twa");
    reveal_strlit("twi");
    reveal_strlit("twu");
    reveal_strlit("twe");
    reveal_strlit("two");
    reveal_strlit("dwa");
    reveal_strlit("dwi");
    reveal_strlit("dwu");
    reveal_strlit("dwe");
    reveal_strlit("dwo");
    reveal_strlit("tsa");
    reveal_strlit("tsi");
    reveal_strlit("tse");
    reveal_strlit("tso");
    reveal_strlit("fa");
    reveal_strlit("fi");
    reveal_strlit("fe");
    reveal_strlit("fo");
    reveal_strlit("fya");
    reveal_strlit("fyu");
    reveal_strlit("fyo");
    reveal_strlit("va");
    reveal_strlit("vi");
    reveal_strlit("vu");
    reveal_strlit("ve");
    reveal_strlit("vo");
    assert(place_from_0(number(MAPPINGS@[160].0@)) == 160);
    assert(place_from_0(number(MAPPINGS@[161].0@)) == 161);
    assert(place_from_0(number(MAPPINGS@[162].0@)) == 162);
    assert(place_from_0(number(MAPPINGS@[163].0@)) == 163);
    assert(place_from_0(number(MAPPINGS@[164].0@)) == 164);
    assert(place_from_0(number(MAPPINGS@[165].0@)) == 165);
    assert(place_from_0(number(MAPPINGS@[166].0@)) == 166);
    assert(place_from_0(number(MAPPINGS@[167].0@)) == 167);
    assert(place_from_0(number(MAPPINGS@[168].0@)) == 168);
    assert(place_from_0(number(MAPPINGS@[169].0@)) == 169);
    assert(place_from_0(number(MAPPINGS@[170].0@)) == 170);
    assert(place_from_0(number(MAPPINGS@[171].0@)) == 171);
    assert(place_from_0(number(MAPPINGS@[172].0@)) == 172);
    assert(place_from_0(number(MAPPINGS@[173].0@)) == 173);
    assert(place_from_0(number(MAPPINGS@[174].0@)) == 174);
    assert(place_from_0(number(MAPPINGS@[175].0@)) == 175);
    assert(place_from_0(number(MAPPINGS@[176].0@)) == 176);
    assert(place_from_0(number(MAPPINGS@[177].0@)) == 177);
    assert(place_from_0(number(MAPPINGS@[178].0@)) == 178);
    assert(place_from_0(number(MAPPINGS@[179].0@)) == 179);
    assert(place_from_0(number(MAPPINGS@[180].0@)) == 180);
    assert(place_from_0(number(MAPPINGS@[181].0@)) == 181);
    assert(place_from_0(number(MAPPINGS@[182].0@)) == 182);
    assert(place_from_0(number(MAPPINGS@[183].0@)) == 183);
    assert(place_from_0(number(MAPPINGS@[184].0@)) == 184);
    assert(place_from_0(number(MAPPINGS@[185].0@)) == 185);
    assert(place_from_0(number(MAPPINGS@[186].0@)) == 186);
    assert(place_from_0(number(MAPPINGS@[187].0@)) == 187);
    assert(place_from_0(number(MAPPINGS@[188].0@)) == 188);
    assert(place_from_0(number(MAPPINGS@[189].0@)) == 189);
    assert(place_from_0(number(MAPPINGS@[190].0@)) == 190);
    assert(place_from_0(number(MAPPINGS@[191].0@)) == 191);
    assert(place_from_0(number(MAPPINGS@[192].0@)) == 192);
    assert(place_from_0(number(MAPPINGS@[193].0@)) == 193);
    assert(place_from_0(number(MAPPINGS@[194].0@)) == 194);
    assert(place_from_0(number(MAPPINGS@[195].0@)) == 195);
    assert(place_from_0(number(MAPPINGS@[196].0@)) == 196);
    assert(place_from_0(number(MAPPINGS@[197].0@)) == 197);
    assert(place_from_0(number(MAPPINGS@[198].0@)) == 198);
    assert(place_from_0(number(MAPPINGS@[199].0@)) == 199);
}

proof fn lemma_rows_from_200(i: int)
    requires
        200 <= i < 240,
    ensures
        place_from_0(number(MAPPINGS@[i].0@)) == i,
{
    reveal_strlit("vya");
    reveal_strlit("vyu");
    reveal_strlit("vyo");
    reveal_strlit("qa");
    reveal_strlit("qi");
    reveal_strlit("qu");
    reveal_strlit("qe");
    reveal_strlit("qo");
    reveal_strlit("kwa");
    reveal_strlit("kwi");
    reveal_strlit("kwu");
    reveal_strlit("kwe");
    reveal_strlit("kwo");
    reveal_strlit("gwa");
    reveal_strlit("gwi");
    reveal_strlit("gwu");
    reveal_strlit("gwe");
    reveal_strlit("gwo");
    reveal_strlit("swa");
    reveal_strlit("swi");
    reveal_strlit("swu");
    reveal_strlit("swe");
    reveal_strlit("swo");
    reveal_strlit("wha");
    reveal_strlit("whi");
    reveal_strlit("whu");
    reveal_strlit("whe");
    reveal_strlit("who");
    reveal_strlit("wyi");
    reveal_strlit("wye");
    reveal_strlit("ca");
    reveal_strlit("ci");
    reveal_strlit("cu");
    reveal_strlit("ce");
    reveal_strlit("co");
    reveal_strlit("xa");
    reveal_strlit("xi");
    reveal_strlit("xu");
    reveal_strlit("xe");
    reveal_strlit("xo");
    assert(place_from_0(number(MAPPINGS@[200].0@)) == 200);
    assert(place_from_0(number(MAPPINGS@[201].0@)) == 201);
    assert(place_from_0(number(MAPPINGS@[202].0@)) == 202);
    assert(place_from_0(number(MAPPINGS@[203].0@)) == 203);
    assert(place_from_0(number(MAPPINGS@[204].0@)) == 204);
    assert(place_from_0(number(MAPPINGS@[205].0@)) == 205);
    assert(place_from_0(number(MAPPINGS@[206].0@)) == 206);
    assert(place_from_0(number(MAPPINGS@[207].0@)) == 207);
    assert(place_from_0(number(MAPPINGS@[208].0@)) == 208);
    assert(place_from_0(number(MAPPINGS@[209].0@)) == 209);
    assert(place_from_0(number(MAPPINGS@[210].0@)) == 210);
    assert(place_from_0(number(MAPPINGS@[211].0@)) == 211);
    assert(place_from_0(number(MAPPINGS@[212].0@)) == 212);
    assert(place_from_0(number(MAPPINGS@[213].0@)) == 213);
    assert(place_from_0(number(MAPPINGS@[214].0@)) == 214);
    assert(place_from_0(number(MAPPINGS@[215].0@)) == 215);
    assert(place_from_0(number(MAPPINGS@[216].0@)) == 216);
    assert(place_from_0(number(MAPPINGS@[217].0@)) == 217);
    assert(place_from_0(number(MAPPINGS@[218].0@)) == 218);
    assert(place_from_0(number(MAPPINGS@[219].0@)) == 219);
    assert(place_from_0(number(MAPPINGS@[220].0@)) == 220);
    assert(place_from_0(number(MAPPINGS@[221].0@)) == 221);
    assert(place_from_0(number(MAPPINGS@[222].0@)) == 222);
    assert(place_from_0(number(MAPPINGS@[223].0@)) == 223);
    assert(place_from_0(number(MAPPINGS@[224].0@)) == 224);
    assert(place_from_0(number(MAPPINGS@[225].0@)) == 225);
    assert(place_from_0(number(MAPPINGS@[226].0@)) == 226);
    assert(place_from_0(number(MAPPINGS@[227].0@)) == 227);
    assert(place_from_0(number(MAPPINGS@[228].0@)) == 228);
    assert(place_from_0(number(MAPPINGS@[229].0@)) == 229);
    assert(place_from_0(number(MAPPINGS@[230].0@)) == 230);
    assert(place_from_0(number(MAPPINGS@[231].0@)) == 231);
    assert(place_from_0(number(MAPPINGS@[232].0@)) == 232);
    assert(place_from_0(number(MAPPINGS@[233].0@)) == 233);
    assert(place_from_0(number(MAPPINGS@[234].0@)) == 234);
    assert(place_from_0(number(MAPPINGS@[235].0@)) == 235);
    assert(place_from_0(number(MAPPINGS@[236].0@)) == 236);
    assert(place_from_0(number(MAPPINGS@[237].0@)) == 237);
    assert(place_from_0(number(MAPPINGS@[238].0@)) == 238);
    assert(place_from_0(number(MAPPINGS@[239].0@)) == 239);
}

proof fn lemma_rows_from_240(i: int)
    requires
        240 <= i < 280,
    ensures
        place_from_0(number(MAPPINGS@[i].0@)) == i,
{
    reveal_strlit("xya");
    reveal_strlit("xyu");
    reveal_strlit("xyo");
    reveal_strlit("xtu");
    reveal_strlit("xtsu");
    reveal_strlit("xwa");
    reveal_strlit("xka");
    reveal_strlit("xke");
    reveal_strlit("la");
    reveal_strlit("li");
    reveal_strlit("lu");
    reveal_strlit("le");
    reveal_strlit("lo");
    reveal_strlit("lya");
    reveal_strlit("lyu");
    reveal_strlit("lyo");
    reveal_strlit("ltu");
    reveal_strlit("ltsu");
    reveal_strlit("lwa");
    reveal_strlit("lka");
    reveal_strlit("lke");
    reveal_strlit("-");
    reveal_strlit(".");
    reveal_strlit(",");
    reveal_strlit("?");
    reveal_strlit("!");
    reveal_strlit("[");
    reveal_strlit("]");
    reveal_strlit("/");
    reveal_strlit("~");
    reveal_strlit("zh");
    reveal_strlit("zj");
    reveal_strlit("zk");
    reveal_strlit("zl");
    reveal_strlit("z.");
    reveal_strlit("z,");
    reveal_strlit("z/");
    reveal_strlit("z-");
    reveal_strlit("z[");
    reveal_strlit("z]");
    assert(place_from_0(number(MAPPINGS@[240].0@)) == 240);
    assert(place_from_0(number(MAPPINGS@[241].0@)) == 241);
    assert(place_from_0(number(MAPPINGS@[242].0@)) == 242);
    assert(place_from_0(number(MAPPINGS@[243].0@)) == 243);
    assert(place_from_0(number(MAPPINGS@[244].0@)) == 244);
    assert(place_from_0(number(MAPPINGS@[245].0@)) == 245);
    assert(place_from_0(number(MAPPINGS@[246].0@)) == 246);
    assert(place_from_0(number(MAPPINGS@[247].0@)) == 247);
    assert(place_from_0(number(MAPPINGS@[248].0@)) == 248);
    assert(place_from_0(number(MAPPINGS@[249].0@)) == 249);
    assert(place_from_0(number(MAPPINGS@[250].0@)) == 250);
    assert(place_from_0(number(MAPPINGS@[251].0@)) == 251);
    assert(place_from_0(number(MAPPINGS@[252].0@)) == 252);
    assert(place_from_0(number(MAPPINGS@[253].0@)) == 253);
    assert(place_from_0(number(MAPPINGS@[254].0@)) == 254);
    assert(place_from_0(number(MAPPINGS@[255].0@)) == 255);
    assert(place_from_0(number(MAPPINGS@[256].0@)) == 256);
    assert(place_from_0(number(MAPPINGS@[257].0@)) == 257);
    assert(place_from_0(number(MAPPINGS@[258].0@)) == 258);
    assert(place_from_0(number(MAPPINGS@[259].0@)) == 259);
    assert(place_from_0(number(MAPPINGS@[260].0@)) == 260);
    assert(place_from_0(number(MAPPINGS@[261].0@)) == 261);
    assert(place_from_0(number(MAPPINGS@[262].0@)) == 262);
    assert(place_from_0(number(MAPPINGS@[263].0@)) == 263);
    assert(place_from_0(number(MAPPINGS@[264].0@)) == 264);
    assert(place_from_0(number(MAPPINGS@[265].0@)) == 265);
    assert(place_from_0(number(MAPPINGS@[266].0@)) == 266);
    assert(place_from_0(number(MAPPINGS@[267].0@)) == 267);
    assert(place_from_0(number(MAPPINGS@[268].0@)) == 268);
    assert(place_from_0(number(MAPPINGS@[269].0@)) == 269);
    assert(place_from_0(number(MAPPINGS@[270].0@)) == 270);
    assert(place_from_0(number(MAPPINGS@[271].0@)) == 271);
    assert(place_from_0(number(MAPPINGS@[272].0@)) == 272);
    assert(place_from_0(number(MAPPINGS@[273].0@)) == 273);
    assert(place_from_0(number(MAPPINGS@[274].0@)) == 274);
    assert(place_from_0(number(MAPPINGS@[275].0@)) == 275);
    assert(place_from_0(number(MAPPINGS@[276].0@)) == 276);
    assert(place_from_0(number(MAPPINGS@[277].0@)) == 277);
    assert(place_from_0(number(MAPPINGS@[278].0@)) == 278);
    assert(place_from_0(number(MAPPINGS@[279].0@)) == 279);
}

proof fn lemma_place(i: int)
    requires
        0 <= i < MAPPING_COUNT,
    ensures
        place_from_0(number(MAPPINGS@[i].0@)) == i,
{
    if i < 40 {
        lemma_rows_from_0(i);
    } else if i < 80 {
        lemma_rows_from_40(i);
    } else if i < 120 {
        lemma_rows_from_80(i);
    } else if i < 160 {
        lemma_rows_from_120(i);
    } else if i < 200 {
        lemma_rows_from_160(i);
    } else if i < 240 {
        lemma_rows_from_200(i);
    } else {
        lemma_rows_from_240(i);
    }
}

/// No sequence stands in two rows.
pub proof fn rows_are_distinct(i: int, j: int)
    requires
        0 <= i < MAPPING_COUNT,
        0 <= j < MAPPING_COUNT,
        MAPPINGS@[i].0@ == MAPPINGS@[j].0@,
    ensures
        i == j,
{
    lemma_place(i);
    lemma_place(j);
}

/// A row is in the table once it has been taken in, with its kana.
proof fn lemma_row_stays(i: int, n: nat)
    requires
        0 <= i < n <= MAPPING_COUNT,
    ensures
        trie::rows_table(MAPPINGS@, n).contains_key(MAPPINGS@[i].0@),
        trie::rows_table(MAPPINGS@, n)[MAPPINGS@[i].0@] == MAPPINGS@[i].1@,
    decreases n,
{
    if i < n - 1 {
        lemma_row_stays(i, (n - 1) as nat);
        if MAPPINGS@[i].0@ == MAPPINGS@[n - 1].0@ {
            rows_are_distinct(i, n - 1);
        }
    }
}

/// Every row of the romaji table is found, with its own kana.
pub proof fn every_row_is_found(i: int)
    requires
        0 <= i < MAPPING_COUNT,
    ensures
        trie::romaji_table().contains_key(MAPPINGS@[i].0@),
        trie::romaji_table()[MAPPINGS@[i].0@] == MAPPINGS@[i].1@,
        trie::kana_of(trie::known(trie::romaji_table(), MAPPINGS@[i].0@)) == Some(MAPPINGS@[i].1@),
{
    lemma_row_stays(i, MAPPING_COUNT as nat);
}

/// What is in the table stands in a row.
proof fn lemma_key_has_row(k: Seq<char>, n: nat)
    requires
        n <= MAPPING_COUNT,
        trie::rows_table(MAPPINGS@, n).contains_key(k),
    ensures
        exists|i: int| 0 <= i < n && #[trigger] MAPPINGS@[i].0@ == k,
    decreases n,
{
    if n > 0 && MAPPINGS@[n - 1].0@ != k {
        lemma_key_has_row(k, (n - 1) as nat);
    }
}

/// An n alone is no sequence of the romaji table, so that it waits for what comes
/// behind it.
pub proof fn n_is_no_sequence()
    ensures
        !trie::romaji_table().contains_key(seq!['n']),
{
    let k = seq!['n'];
    if trie::romaji_table().contains_key(k) {
        lemma_key_has_row(k, MAPPING_COUNT as nat);
        let i = choose|i: int| 0 <= i < MAPPING_COUNT && #[trigger] MAPPINGS@[i].0@ == k;
        lemma_place(i);
        assert(number(k) == 0x6e);
    }
}

} // verus!
