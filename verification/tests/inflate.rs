use cacti::deflate::Deflate;
use cacti::error::ArchiveError;
use cacti::inflate::Inflate;

/// A DEFLATE stream with one fixed Huffman block.
const FIXED_STREAM: [u8; 143] = [
    227, 229, 42, 203, 207, 76, 81, 72, 41, 74, 44, 215, 200, 204, 43, 81,
    200, 211, 84, 168, 230, 229, 82, 0, 130, 180, 252, 34, 5, 176, 80, 166,
    130, 173, 130, 129, 53, 144, 178, 81, 200, 179, 86, 208, 214, 206, 132,
    43, 1, 129, 130, 210, 146, 228, 140, 196, 34, 13, 117, 7, 117, 77, 107,
    136, 112, 45, 132, 130, 203, 212, 192, 101, 72, 53, 83, 129, 6, 102,
    162, 184, 19, 136, 120, 185, 64, 154, 115, 19, 51, 243, 192, 166, 36,
    22, 165, 39, 235, 40, 128, 148, 106, 105, 129, 56, 101, 216, 3, 196, 16,
    98, 145, 57, 22, 139, 138, 128, 106, 210, 52, 148, 98, 242, 98, 242, 84,
    83, 172, 98, 242, 148, 116, 20, 50, 97, 86, 130, 0, 36, 172, 81, 29, 1,
    0,
];

const FIXED_TEXT: &str = "\r\nvoid draw(int n) {\r\n    for (int i = 0; i < n; ++i) {\r\n        putchar('@');\r\n    }\r\n    putchar('|');\r\n    for (int i = 0; i < n; ++i) {\r\n        putchar(' ');\r\n    }\r\n    putchar('|');\r\n    for (int i = 0; i < n; ++i) {\r\n        putchar('@');\r\n    }\r\n}\r\n\r\nint main(int argc, char** argv) {\r\n    for (int i = 1; i < 7; ++i) {\r\n        printf(\"\\n\\n%d:\\n\", i);\r\n        draw(i);\r\n    }\r\n}\r\n";

/// A DEFLATE stream with one dynamic Huffman block.
const DYNAMIC_STREAM: [u8; 1415] = [
    109, 153, 73, 142, 100, 55, 12, 68, 247, 125, 138, 60, 194, 23, 53, 210, 183, 241, 162, 128,
    110, 160, 224, 141, 187, 125, 126, 219, 40, 70, 36, 160, 215, 219, 175, 212, 192, 16, 135, 39,
    230, 231, 143, 191, 62, 94, 207, 31, 175, 159, 223, 63, 94, 255, 252, 249, 249, 235, 227, 245,
    227, 239, 215, 243, 237, 243, 255, 207, 237, 250, 220, 190, 62, 199, 245, 121, 124, 125, 238, 215,
    231, 252, 250, 60, 238, 69, 214, 215, 247, 121, 125, 143, 249, 245, 125, 93, 223, 123, 253, 126,
    223, 187, 214, 250, 231, 250, 190, 234, 56, 121, 125, 63, 117, 250, 118, 27, 219, 30, 153, 11,
    123, 67, 115, 110, 147, 219, 168, 93, 90, 135, 121, 117, 174, 6, 195, 179, 44, 105, 48, 93,
    182, 183, 5, 81, 52, 231, 54, 63, 142, 246, 185, 5, 232, 161, 179, 37, 164, 212, 13, 222,
    26, 12, 105, 16, 183, 6, 99, 104, 14, 174, 253, 212, 62, 113, 107, 48, 163, 206, 22, 183,
    6, 115, 151, 61, 113, 107, 176, 164, 65, 220, 26, 44, 207, 185, 53, 216, 222, 231, 214, 96,
    251, 108, 112, 3, 217, 211, 111, 13, 82, 26, 244, 91, 131, 148, 110, 29, 26, 236, 26, 128,
    27, 180, 168, 17, 184, 193, 174, 67, 119, 184, 193, 56, 53, 130, 24, 104, 154, 115, 75, 208,
    83, 251, 220, 18, 140, 165, 179, 221, 18, 76, 57, 239, 120, 112, 9, 189, 70, 110, 9, 246,
    163, 57, 1, 169, 107, 159, 113, 107, 112, 118, 157, 109, 220, 26, 228, 84, 114, 184, 53, 216,
    165, 244, 88, 136, 43, 45, 134, 72, 152, 229, 57, 3, 145, 48, 235, 70, 71, 194, 171, 235,
    208, 243, 129, 56, 202, 79, 13, 137, 69, 115, 32, 129, 246, 153, 144, 64, 103, 155, 144, 64,
    246, 204, 91, 130, 44, 165, 39, 146, 193, 163, 197, 224, 5, 173, 60, 103, 194, 11, 122, 221,
    232, 132, 23, 232, 208, 11, 94, 160, 20, 182, 224, 5, 169, 57, 183, 4, 217, 106, 159, 117,
    75, 160, 216, 89, 8, 132, 83, 135, 94, 19, 230, 148, 210, 107, 225, 222, 52, 231, 150, 96,
    42, 191, 47, 228, 2, 85, 156, 133, 92, 48, 235, 208, 27, 53, 161, 148, 222, 40, 9, 74,
    200, 251, 86, 32, 178, 84, 219, 29, 135, 174, 27, 221, 72, 135, 89, 135, 222, 136, 131, 81,
    74, 239, 91, 130, 227, 57, 27, 137, 178, 6, 14, 234, 75, 249, 218, 70, 69, 80, 50, 58,
    136, 131, 94, 74, 31, 196, 129, 12, 61, 183, 4, 71, 62, 125, 80, 17, 202, 154, 115, 43,
    16, 186, 234, 3, 39, 56, 165, 244, 89, 240, 92, 205, 65, 65, 232, 218, 231, 32, 185, 215,
    141, 158, 68, 249, 175, 145, 124, 80, 98, 133, 18, 40, 138, 75, 115, 2, 73, 162, 100, 75,
    164, 2, 69, 98, 14, 196, 104, 13, 160, 32, 244, 210, 51, 17, 7, 74, 212, 9, 39, 144,
    183, 231, 1, 0, 149, 227, 36, 188, 192, 104, 4, 9, 36, 104, 123, 160, 193, 123, 22, 68,
    232, 34, 144, 135, 42, 8, 91, 158, 1, 191, 210, 8, 116, 216, 71, 67, 16, 194, 24, 244,
    192, 25, 158, 208, 16, 188, 65, 94, 215, 30, 184, 131, 156, 171, 1, 20, 187, 64, 164, 129,
    20, 103, 122, 22, 130, 34, 140, 151, 72, 141, 50, 11, 172, 24, 41, 34, 4, 44, 78, 227,
    29, 104, 113, 79, 207, 218, 224, 17, 141, 32, 57, 12, 91, 133, 42, 121, 186, 248, 247, 1,
    122, 73, 220, 32, 45, 121, 22, 114, 164, 128, 173, 129, 25, 199, 150, 89, 128, 198, 253, 198,
    112, 212, 202, 45, 113, 129, 141, 97, 68, 15, 62, 29, 116, 91, 4, 199, 105, 187, 16, 37,
    26, 1, 57, 134, 82, 114, 3, 58, 78, 175, 7, 118, 60, 42, 50, 141, 244, 248, 72, 66,
    224, 99, 183, 197, 224, 199, 229, 216, 2, 64, 102, 243, 44, 224, 211, 163, 251, 39, 66, 250,
    205, 4, 134, 220, 83, 190, 75, 136, 212, 86, 128, 200, 46, 246, 110, 160, 200, 101, 175, 6,
    70, 230, 227, 23, 21, 171, 135, 135, 16, 38, 143, 15, 136, 48, 73, 207, 98, 152, 232, 78,
    0, 147, 195, 18, 130, 38, 247, 35, 127, 154, 116, 13, 141, 64, 12, 167, 214, 201, 252, 169,
    235, 7, 80, 166, 202, 114, 3, 81, 134, 211, 9, 144, 114, 110, 31, 16, 56, 113, 60, 11,
    158, 225, 59, 1, 86, 78, 187, 218, 36, 84, 201, 159, 0, 150, 45, 181, 23, 200, 114, 250,
    38, 129, 150, 103, 40, 132, 192, 150, 77, 60, 218, 64, 151, 211, 41, 30, 120, 121, 156, 241,
    22, 17, 219, 11, 2, 48, 125, 41, 32, 204, 99, 229, 129, 152, 17, 26, 2, 99, 78, 241,
    90, 3, 101, 166, 157, 151, 152, 233, 60, 185, 73, 218, 210, 112, 243, 181, 225, 62, 2, 56,
    203, 30, 5, 212, 92, 46, 174, 100, 77, 197, 9, 96, 115, 184, 222, 129, 54, 183, 221, 240,
    16, 184, 221, 206, 128, 107, 120, 65, 2, 167, 11, 20, 136, 51, 244, 146, 108, 96, 206, 101,
    139, 9, 157, 222, 10, 160, 241, 120, 61, 128, 134, 175, 4, 216, 217, 244, 4, 110, 135, 175,
    112, 89, 12, 240, 76, 59, 77, 50, 107, 104, 65, 160, 231, 118, 238, 2, 123, 54, 225, 98,
    75, 198, 137, 76, 6, 126, 30, 231, 201, 100, 67, 194, 11, 18, 187, 228, 106, 32, 208, 246,
    238, 76, 65, 141, 112, 107, 138, 106, 168, 55, 245, 176, 160, 168, 205, 3, 6, 221, 122, 173,
    7, 24, 244, 191, 24, 208, 16, 212, 56, 161, 161, 137, 150, 159, 70, 8, 227, 94, 111, 3,
    119, 143, 134, 192, 93, 110, 107, 129, 65, 87, 118, 117, 227, 16, 39, 93, 123, 145, 65, 149,
    120, 3, 12, 42, 163, 64, 160, 35, 164, 18, 16, 244, 76, 25, 220, 24, 37, 222, 9, 181,
    181, 123, 65, 212, 214, 183, 85, 232, 217, 202, 225, 3, 12, 170, 242, 20, 64, 208, 233, 179,
    255, 6, 65, 61, 11, 29, 59, 189, 77, 34, 216, 175, 82, 59, 17, 8, 218, 135, 135, 240,
    82, 79, 239, 133, 106, 162, 232, 143, 223, 180, 46, 117, 143, 64, 208, 16, 252, 5, 16, 116,
    137, 173, 2, 12, 218, 84, 37, 3, 12, 186, 188, 32, 25, 84, 102, 1, 65, 167, 175, 31,
    8, 234, 160, 3, 129, 206, 230, 157, 224, 24, 26, 0, 140, 31, 219, 132, 103, 154, 222, 51,
    1, 254, 28, 30, 2, 127, 166, 111, 120, 240, 205, 170, 187, 2, 128, 166, 19, 208, 96, 144,
    184, 157, 141, 186, 170, 215, 118, 0, 64, 135, 125, 122, 144, 198, 189, 32, 212, 112, 124, 3,
    64, 83, 197, 41, 216, 206, 84, 127, 37, 0, 160, 105, 207, 5, 129, 142, 173, 219, 2, 129,
    230, 187, 79, 207, 86, 142, 228, 157, 140, 18, 141, 192, 49, 134, 183, 130, 99, 200, 51, 192,
    159, 51, 109, 21, 43, 137, 196, 5, 127, 174, 225, 63, 18, 16, 35, 106, 85, 7, 59, 155,
    34, 174, 0, 127, 134, 35, 1, 252, 185, 157, 49, 192, 159, 221, 78, 67, 254, 156, 222, 11,
    165, 68, 127, 27, 4, 248, 51, 223, 118, 129, 198, 29, 224, 224, 79, 189, 197, 99, 243, 153,
    166, 173, 216, 228, 92, 254, 199, 5, 101, 85, 143, 177, 216, 36, 46, 169, 11, 252, 60, 42,
    252, 65, 252, 76, 239, 133, 48, 113, 9, 7, 126, 206, 176, 93, 112, 13, 129, 90, 128, 63,
    151, 133, 7, 127, 134, 250, 173, 1, 254, 60, 94, 16, 252, 217, 237, 80, 224, 207, 212, 195,
    63, 192, 159, 211, 169, 26, 252, 217, 28, 66, 0, 208, 173, 62, 101, 0, 64, 251, 251, 132,
    120, 154, 56, 144, 1, 160, 195, 67, 0, 80, 245, 219, 2, 252, 185, 196, 233, 1, 254, 12,
    189, 9, 130, 189, 79, 231, 39, 54, 63, 93, 210, 192, 159, 174, 158, 192, 207, 101, 183, 6,
    126, 134, 67, 146, 13, 208, 237, 63, 5, 161, 69, 142, 111, 255, 2,
];

/// A DEFLATE stream of several blocks, one of them an empty stored block.
const MULTI_STREAM: [u8; 1465] = [
    100, 150, 73, 142, 21, 65, 12, 68, 247, 156, 162, 142, 144, 147, 39, 110, 195, 226, 75, 180,
    244, 197, 166, 27, 206, 143, 80, 69, 20, 146, 99, 235, 44, 87, 218, 47, 195, 195, 251, 227,
    215, 235, 26, 223, 175, 175, 159, 175, 235, 207, 143, 247, 239, 215, 245, 241, 121, 141, 111, 239,
    127, 230, 217, 204, 243, 54, 175, 102, 62, 183, 121, 55, 115, 221, 230, 211, 127, 226, 183, 221,
    154, 125, 217, 109, 247, 102, 223, 248, 62, 250, 173, 248, 127, 54, 187, 35, 156, 106, 246, 68,
    244, 179, 39, 59, 7, 211, 149, 124, 23, 125, 122, 202, 243, 224, 150, 185, 37, 61, 196, 53,
    37, 241, 66, 38, 83, 82, 103, 238, 211, 5, 10, 125, 122, 250, 43, 121, 79, 7, 176, 23,
    99, 43, 65, 201, 23, 236, 12, 14, 25, 172, 206, 224, 28, 250, 200, 179, 39, 238, 89, 157,
    129, 45, 196, 182, 58, 3, 11, 228, 179, 58, 3, 39, 131, 213, 25, 248, 227, 211, 25, 196,
    115, 79, 103, 16, 79, 108, 34, 3, 230, 179, 59, 131, 34, 131, 221, 25, 20, 185, 109, 97,
    16, 56, 16, 25, 204, 133, 19, 145, 65, 32, 232, 45, 50, 56, 137, 19, 169, 129, 73, 159,
    142, 96, 23, 239, 233, 8, 142, 51, 182, 142, 192, 40, 222, 51, 228, 17, 54, 78, 58, 130,
    24, 244, 89, 130, 26, 247, 156, 206, 32, 3, 177, 157, 206, 160, 140, 205, 161, 51, 8, 144,
    62, 46, 117, 197, 159, 73, 37, 24, 148, 115, 164, 18, 12, 47, 122, 74, 84, 141, 160, 109,
    8, 28, 246, 167, 41, 141, 133, 62, 130, 128, 247, 152, 32, 96, 108, 38, 8, 152, 143, 117,
    4, 5, 210, 38, 205, 96, 240, 103, 162, 130, 9, 229, 152, 168, 96, 227, 69, 77, 84, 192,
    160, 93, 84, 192, 22, 230, 162, 130, 162, 79, 71, 80, 19, 247, 120, 71, 192, 218, 113, 41,
    132, 68, 208, 110, 146, 14, 72, 187, 203, 187, 209, 167, 35, 48, 246, 119, 151, 94, 192, 137,
    227, 210, 11, 12, 65, 135, 204, 4, 144, 14, 25, 9, 108, 200, 209, 9, 172, 2, 181, 216,
    18, 52, 94, 52, 164, 29, 22, 130, 14, 169, 131, 3, 210, 209, 17, 228, 227, 19, 210, 40,
    113, 144, 50, 95, 160, 181, 144, 137, 192, 102, 148, 82, 7, 27, 164, 83, 234, 128, 137, 102,
    71, 144, 212, 116, 202, 68, 64, 54, 217, 9, 44, 62, 117, 138, 8, 18, 164, 211, 69, 185,
    244, 145, 129, 176, 121, 79, 74, 115, 199, 139, 102, 201, 248, 199, 73, 13, 25, 177, 92, 37,
    100, 40, 58, 125, 150, 52, 9, 96, 43, 105, 5, 172, 196, 58, 82, 163, 56, 144, 129, 176,
    193, 179, 164, 14, 216, 168, 75, 68, 64, 181, 87, 202, 2, 4, 225, 148, 168, 224, 89, 141,
    4, 1, 129, 206, 33, 12, 254, 123, 9, 132, 205, 13, 100, 40, 5, 174, 45, 227, 136, 174,
    120, 34, 28, 34, 121, 36, 32, 158, 53, 104, 136, 24, 198, 226, 145, 168, 129, 170, 155, 67,
    228, 64, 113, 77, 89, 20, 55, 23, 145, 41, 155, 162, 213, 227, 37, 69, 177, 158, 245, 82,
    90, 35, 211, 146, 93, 113, 21, 55, 66, 89, 22, 237, 94, 239, 254, 2, 0, 0, 255, 255,
    109, 151, 59, 142, 29, 59, 12, 5, 115, 175, 226, 46, 161, 69, 81, 31, 122, 55, 14, 6,
    120, 6, 12, 39, 254, 172, 223, 19, 204, 57, 3, 176, 94, 76, 180, 40, 150, 72, 169, 250,
    237, 53, 198, 254, 250, 250, 253, 223, 219, 235, 239, 183, 31, 127, 222, 94, 223, 127, 189, 206,
    90, 95, 126, 124, 255, 249, 246, 30, 58, 45, 52, 134, 34, 183, 69, 34, 183, 66, 213, 66,
    121, 231, 71, 40, 158, 158, 42, 66, 161, 209, 66, 181, 253, 85, 244, 92, 81, 10, 205, 158,
    235, 164, 66, 137, 92, 218, 124, 172, 158, 235, 60, 10, 109, 212, 229, 5, 59, 140, 172, 163,
    208, 5, 66, 215, 213, 105, 76, 69, 102, 135, 17, 165, 13, 206, 14, 99, 121, 189, 217, 97,
    220, 161, 211, 154, 29, 198, 120, 132, 112, 118, 24, 211, 21, 207, 14, 99, 79, 209, 157, 29,
    70, 13, 127, 213, 97, 196, 163, 243, 159, 23, 231, 239, 186, 10, 156, 238, 71, 40, 59, 141,
    173, 84, 217, 97, 204, 212, 122, 217, 97, 236, 208, 105, 101, 135, 81, 143, 202, 202, 14, 35,
    134, 67, 29, 198, 122, 188, 65, 140, 73, 249, 43, 142, 137, 206, 36, 1, 195, 8, 19, 48,
    30, 245, 211, 98, 107, 40, 2, 24, 83, 235, 45, 192, 152, 58, 254, 5, 24, 83, 101, 45,
    192, 216, 14, 1, 198, 241, 6, 59, 140, 123, 253, 21, 58, 195, 103, 178, 58, 140, 229, 86,
    91, 29, 198, 93, 234, 167, 221, 97, 140, 82, 174, 141, 57, 241, 73, 110, 204, 73, 106, 132,
    54, 230, 164, 196, 112, 39, 22, 84, 201, 123, 97, 65, 239, 16, 151, 198, 227, 5, 15, 74,
    214, 161, 236, 78, 227, 154, 252, 46, 48, 84, 232, 116, 26, 107, 107, 135, 7, 87, 168, 155,
    247, 224, 10, 245, 61, 121, 58, 141, 109, 134, 39, 113, 39, 171, 228, 179, 208, 135, 206, 213,
    105, 236, 235, 5, 59, 141, 173, 57, 57, 152, 147, 16, 194, 131, 57, 113, 27, 94, 180, 198,
    82, 170, 139, 214, 240, 130, 23, 173, 225, 7, 234, 78, 112, 210, 93, 115, 19, 227, 165, 138,
    47, 96, 56, 85, 103, 145, 143, 215, 59, 40, 75, 71, 114, 59, 140, 247, 243, 83, 168, 195,
    88, 169, 138, 171, 195, 40, 55, 77, 241, 214, 208, 130, 213, 97, 28, 223, 93, 133, 57, 9,
    113, 42, 206, 137, 74, 46, 204, 137, 239, 201, 234, 52, 230, 240, 130, 160, 225, 247, 164, 64,
    195, 23, 74, 129, 134, 222, 248, 247, 9, 4, 141, 71, 33, 62, 40, 169, 16, 104, 228, 81,
    8, 52, 206, 82, 8, 52, 110, 40, 212, 105, 12, 167, 66, 107, 132, 215, 235, 48, 174, 90,
    45, 30, 120, 215, 217, 10, 117, 24, 187, 62, 232, 198, 192, 156, 76, 229, 26, 84, 13, 45,
    56, 112, 105, 40, 0, 235, 10, 81, 26, 137, 123, 92, 5, 15, 78, 137, 51, 225, 109, 157,
    94, 16, 111, 235, 103, 85, 23, 175, 191, 48, 193, 65, 245, 60, 5, 20, 116, 121, 239, 255,
    163, 160, 254, 170, 163, 200, 169, 178, 160, 160, 247, 148, 66, 176, 174, 116, 104, 193, 38, 156,
    11, 175, 137, 166, 63, 160, 160, 199, 61, 3, 5, 13, 201, 95, 64, 65, 183, 220, 42, 224,
    160, 67, 175, 100, 192, 65, 183, 23, 164, 131, 170, 44, 40, 232, 242, 241, 67, 65, 61, 116,
    48, 208, 53, 156, 9, 141, 161, 0, 100, 252, 186, 166, 78, 162, 244, 63, 19, 240, 207, 116,
    8, 254, 89, 62, 97, 8, 104, 122, 28, 33, 160, 229, 11, 40, 57, 36, 162, 4, 1, 173,
    161, 73, 128, 128, 166, 123, 58, 105, 227, 94, 16, 52, 60, 223, 16, 208, 210, 227, 20, 73,
    26, 10, 65, 64, 203, 157, 11, 3, 205, 163, 211, 130, 129, 150, 47, 39, 24, 232, 122, 132,
    119, 113, 74, 20, 65, 99, 164, 83, 161, 49, 212, 25, 240, 207, 85, 174, 138, 47, 137, 224,
    194, 63, 119, 138, 32, 253, 243, 42, 23, 252, 243, 200, 184, 2, 254, 25, 158, 4, 248, 231,
    241, 141, 1, 255, 156, 110, 26, 250, 231, 114, 46, 60, 37, 67, 83, 12, 255, 172, 207, 186,
    96, 227, 30, 112, 248, 167, 254, 197, 227, 240, 55, 77, 169, 160, 159, 67, 182, 24, 208, 207,
    163, 159, 177, 56, 52, 46, 209, 133, 126, 94, 61, 252, 65, 253, 44, 231, 194, 152, 248, 9,
    135, 126, 174, 112, 93, 104, 13, 137, 90, 192, 63, 183, 193, 195, 63, 223, 175, 17, 133, 58,
    141, 235, 5, 225, 159, 211, 13, 5, 255, 44, 253, 248, 7, 252, 115, 249, 170, 134, 127, 14,
    143, 16, 4, 244, 60, 58, 127, 8, 232, 252, 220, 33, 126, 77, 60, 200, 16, 208, 116, 8,
    2, 122, 196, 9, 254, 185, 229, 233, 1, 255, 12, 253, 19, 4, 252, 243, 250, 126, 130, 127,
    166, 159, 52, 248, 167, 95, 79, 232, 231, 118, 91, 67, 63, 195, 35, 89, 100, 33, 184, 208,
    207, 172, 252, 242, 15,
];

fn lines_text() -> Vec<u8> {
    let mut text = Vec::new();
    for i in 0..300u32 {
        text.extend_from_slice(format!("line {}: the value is {}\n", i, i * i % 977).as_bytes());
    }
    text
}

/// Reads the whole stream in chunks of the given size.
fn inflate_all(data: &[u8], chunk: usize) -> Result<Vec<u8>, ArchiveError> {
    let mut inflate = Inflate::new(data);
    let mut out = Vec::new();
    let mut buf = vec![0u8; chunk];
    loop {
        let n = inflate.read(&mut buf)?;
        out.extend_from_slice(&buf[..n]);
        if n < chunk {
            return Ok(out);
        }
    }
}

#[test]
fn inflate_fixed_block() {
    assert_eq!(inflate_all(&FIXED_STREAM, 64), Ok(FIXED_TEXT.as_bytes().to_vec()));
}

#[test]
fn inflate_dynamic_block() {
    assert_eq!(inflate_all(&DYNAMIC_STREAM, 1000), Ok(lines_text()));
}

#[test]
fn inflate_several_blocks() {
    assert_eq!(inflate_all(&MULTI_STREAM, 4096), Ok(lines_text()));
}

#[test]
fn inflate_chunk_size_does_not_matter() {
    let whole = inflate_all(&DYNAMIC_STREAM, 10000).unwrap();
    for chunk in [1usize, 2, 7, 258, 333] {
        assert_eq!(inflate_all(&DYNAMIC_STREAM, chunk).unwrap(), whole);
    }
}

#[test]
fn inflate_stored_block() {
    let data = [
        1, 20, 0, 235, 255, 72, 101, 108, 108, 111, 44, 32, 115, 116, 111, 114, 101, 100, 32, 119,
        111, 114, 108, 100, 33,
    ];
    assert_eq!(inflate_all(&data, 5), Ok(b"Hello, stored world!".to_vec()));
}

#[test]
fn inflate_read_fills_buffer_exactly_and_then_reports_the_rest() {
    let mut inflate = Inflate::new(&FIXED_STREAM);
    let mut buf = [0u8; 10];
    assert_eq!(inflate.read(&mut buf), Ok(10));
    assert_eq!(&buf, &FIXED_TEXT.as_bytes()[..10]);
    let mut rest = vec![0u8; 1000];
    assert_eq!(inflate.read(&mut rest), Ok(FIXED_TEXT.len() - 10));
    assert_eq!(&rest[..FIXED_TEXT.len() - 10], &FIXED_TEXT.as_bytes()[10..]);
    assert!(rest[FIXED_TEXT.len() - 10..].iter().all(|b| *b == 0));
    assert_eq!(inflate.read(&mut rest), Ok(0));
}

#[test]
fn inflate_empty_buffer_reads_nothing() {
    let mut inflate = Inflate::new(&[0x07]);
    let mut empty: [u8; 0] = [];
    assert_eq!(inflate.read(&mut empty), Ok(0));
}

#[test]
fn inflate_invalid_block_type() {
    assert_eq!(inflate_all(&[0x07], 8), Err(ArchiveError::InvalidBlockType));
}

#[test]
fn inflate_len_nlen_mismatch() {
    assert_eq!(inflate_all(&[0x01, 5, 0, 0, 0], 8), Err(ArchiveError::LenNlenMismatch));
}

#[test]
fn inflate_truncated_stream() {
    assert_eq!(inflate_all(&[], 8), Err(ArchiveError::UnexpectedEof));
    let mut inflate = Inflate::new(&[0x01, 5, 0, 0xfa, 0xff, b'a']);
    let mut one = [0u8; 1];
    assert_eq!(inflate.read(&mut one), Ok(1));
    assert_eq!(one, [b'a']);
    assert_eq!(inflate.read(&mut one), Err(ArchiveError::UnexpectedEof));
    // The failure sticks
    assert_eq!(inflate.read(&mut one), Err(ArchiveError::UnexpectedEof));
    let truncated = &DYNAMIC_STREAM[..700];
    assert_eq!(inflate_all(truncated, 64), Err(ArchiveError::UnexpectedEof));
}

#[test]
fn inflate_dynamic_two_literals() {
    let data = [13, 192, 1, 9, 0, 0, 0, 128, 160, 109, 254, 63, 85, 16];
    assert_eq!(inflate_all(&data, 8), Ok(b"AA".to_vec()));
}

#[test]
fn inflate_no_such_code() {
    let data = [13, 192, 1, 9, 0, 0, 0, 128, 160, 109, 254, 63, 85, 24];
    let mut inflate = Inflate::new(&data);
    let mut one = [0u8; 1];
    assert_eq!(inflate.read(&mut one), Ok(1));
    assert_eq!(one, [b'A']);
    assert_eq!(inflate.read(&mut one), Err(ArchiveError::NoSuchCode));
}

#[test]
fn inflate_no_code_length_to_repeat() {
    let data = [13, 192, 5, 8, 0, 0, 0, 128, 160, 1];
    assert_eq!(inflate_all(&data, 8), Err(ArchiveError::NoCodeLengthToRepeat));
}

#[test]
fn inflate_too_many_code_lengths() {
    let data = [13, 192, 1, 9, 0, 0, 0, 128, 160, 255, 255, 1];
    assert_eq!(inflate_all(&data, 8), Err(ArchiveError::TooManyCodeLengths));
}

#[test]
fn inflate_over_subscribed_codes() {
    let data = [5, 224, 147, 36, 73, 146, 36, 73, 146, 0];
    assert_eq!(inflate_all(&data, 8), Err(ArchiveError::OverSubscribedCodes));
}

#[test]
fn inflate_invalid_length_symbol() {
    let mut inflate = Inflate::new(&[171, 24, 3]);
    let mut buf = [0u8; 4];
    assert_eq!(inflate.read(&mut buf), Err(ArchiveError::InvalidLengthSymbol));
    let mut inflate = Inflate::new(&[171, 24, 3]);
    let mut one = [0u8; 1];
    assert_eq!(inflate.read(&mut one), Ok(1));
    assert_eq!(one, [b'x']);
}

#[test]
fn inflate_invalid_distance_symbol() {
    assert_eq!(inflate_all(&[171, 0, 62], 8), Err(ArchiveError::InvalidDistanceSymbol));
}

#[test]
fn inflate_distance_before_start_is_an_error() {
    // A fixed block whose first symbol is a length of 3 at distance 1.
    assert_eq!(inflate_all(&[3, 2, 0], 8), Err(ArchiveError::DistanceTooFarBack));
    assert_eq!(inflate_all(&[3, 226, 74, 0], 8), Err(ArchiveError::DistanceTooFarBack));
    let mut deflate = Deflate::new(&[3, 2, 0]);
    let mut buf = [0u8; 4];
    assert_eq!(deflate.read(&mut buf), Err(ArchiveError::DistanceTooFarBack));
}

#[test]
fn inflate_distance_within_output_copies() {
    // The literal 'a' and then a length of 3 at distance 1.
    assert_eq!(inflate_all(&[0x4b, 0x04, 0x02, 0x00], 8), Ok(b"aaaa".to_vec()));
}

#[test]
fn deflate_decodes_like_inflate() {
    let mut deflate = Deflate::new(&FIXED_STREAM);
    let mut buf = vec![0u8; 1000];
    let n = deflate.read(&mut buf).unwrap();
    assert_eq!(&buf[..n], FIXED_TEXT.as_bytes());
}
