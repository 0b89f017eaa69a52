//! The instruction table that the assembler starts with: the z80
//! instructions, in the text format that `opcodes::load_lines` reads.
use vstd::prelude::*;

verus! {

/// The z80 instruction table: one instruction per line, its pattern, `->`,
/// and its code (`[8]` and `[16]` stand for one- and two-byte values, `[k]`
/// for where operand `k` goes).
pub const OPCODES: &'static str = "
nop -> 00
ld b , b -> 40
ld b , c -> 41
ld b , d -> 42
ld b , e -> 43
ld b , h -> 44
ld b , l -> 45
ld b , ( hl ) -> 46
ld b , a -> 47
ld c , b -> 48
ld c , c -> 49
ld c , d -> 4A
ld c , e -> 4B
ld c , h -> 4C
ld c , l -> 4D
ld c , ( hl ) -> 4E
ld c , a -> 4F
ld d , b -> 50
ld d , c -> 51
ld d , d -> 52
ld d , e -> 53
ld d , h -> 54
ld d , l -> 55
ld d , ( hl ) -> 56
ld d , a -> 57
ld e , b -> 58
ld e , c -> 59
ld e , d -> 5A
ld e , e -> 5B
ld e , h -> 5C
ld e , l -> 5D
ld e , ( hl ) -> 5E
ld e , a -> 5F
ld h , b -> 60
ld h , c -> 61
ld h , d -> 62
ld h , e -> 63
ld h , h -> 64
ld h , l -> 65
ld h , ( hl ) -> 66
ld h , a -> 67
ld l , b -> 68
ld l , c -> 69
ld l , d -> 6A
ld l , e -> 6B
ld l , h -> 6C
ld l , l -> 6D
ld l , ( hl ) -> 6E
ld l , a -> 6F
ld ( hl ) , b -> 70
ld ( hl ) , c -> 71
ld ( hl ) , d -> 72
ld ( hl ) , e -> 73
ld ( hl ) , h -> 74
ld ( hl ) , l -> 75
ld ( hl ) , a -> 77
ld a , b -> 78
ld a , c -> 79
ld a , d -> 7A
ld a , e -> 7B
ld a , h -> 7C
ld a , l -> 7D
ld a , ( hl ) -> 7E
ld a , a -> 7F
ld b , [8] -> 06 [0]
ld c , [8] -> 0E [0]
ld d , [8] -> 16 [0]
ld e , [8] -> 1E [0]
ld h , [8] -> 26 [0]
ld l , [8] -> 2E [0]
ld ( hl ) , [8] -> 36 [0]
ld a , [8] -> 3E [0]
ld bc , [16] -> 01 [0]
ld de , [16] -> 11 [0]
ld hl , [16] -> 21 [0]
ld sp , [16] -> 31 [0]
ld ( bc ) , a -> 02
ld ( de ) , a -> 12
ld a , ( bc ) -> 0A
ld a , ( de ) -> 1A
ld ( [16] ) , hl -> 22 [0]
ld hl , ( [16] ) -> 2A [0]
ld ( [16] ) , a -> 32 [0]
ld a , ( [16] ) -> 3A [0]
ld sp , hl -> F9
inc b -> 04
dec b -> 05
inc c -> 0C
dec c -> 0D
inc d -> 14
dec d -> 15
inc e -> 1C
dec e -> 1D
inc h -> 24
dec h -> 25
inc l -> 2C
dec l -> 2D
inc ( hl ) -> 34
dec ( hl ) -> 35
inc a -> 3C
dec a -> 3D
inc bc -> 03
dec bc -> 0B
add hl , bc -> 09
inc de -> 13
dec de -> 1B
add hl , de -> 19
inc hl -> 23
dec hl -> 2B
add hl , hl -> 29
inc sp -> 33
dec sp -> 3B
add hl , sp -> 39
add a , b -> 80
add a , c -> 81
add a , d -> 82
add a , e -> 83
add a , h -> 84
add a , l -> 85
add a , ( hl ) -> 86
add a , a -> 87
add a , [8] -> C6 [0]
adc a , b -> 88
adc a , c -> 89
adc a , d -> 8A
adc a , e -> 8B
adc a , h -> 8C
adc a , l -> 8D
adc a , ( hl ) -> 8E
adc a , a -> 8F
adc a , [8] -> CE [0]
sub b -> 90
sub c -> 91
sub d -> 92
sub e -> 93
sub h -> 94
sub l -> 95
sub ( hl ) -> 96
sub a -> 97
sub [8] -> D6 [0]
sbc a , b -> 98
sbc a , c -> 99
sbc a , d -> 9A
sbc a , e -> 9B
sbc a , h -> 9C
sbc a , l -> 9D
sbc a , ( hl ) -> 9E
sbc a , a -> 9F
sbc a , [8] -> DE [0]
and b -> A0
and c -> A1
and d -> A2
and e -> A3
and h -> A4
and l -> A5
and ( hl ) -> A6
and a -> A7
and [8] -> E6 [0]
xor b -> A8
xor c -> A9
xor d -> AA
xor e -> AB
xor h -> AC
xor l -> AD
xor ( hl ) -> AE
xor a -> AF
xor [8] -> EE [0]
or b -> B0
or c -> B1
or d -> B2
or e -> B3
or h -> B4
or l -> B5
or ( hl ) -> B6
or a -> B7
or [8] -> F6 [0]
cp b -> B8
cp c -> B9
cp d -> BA
cp e -> BB
cp h -> BC
cp l -> BD
cp ( hl ) -> BE
cp a -> BF
cp [8] -> FE [0]
rlca -> 07
rrca -> 0F
rla -> 17
rra -> 1F
daa -> 27
cpl -> 2F
scf -> 37
ccf -> 3F
halt -> 76
di -> F3
ei -> FB
exx -> D9
ret -> C9
ex af , af' -> 08
ex de , hl -> EB
ex ( sp ) , hl -> E3
djnz [8] -> 10 [0]
jr [8] -> 18 [0]
jr nz , [8] -> 20 [0]
jr z , [8] -> 28 [0]
jr nc , [8] -> 30 [0]
jr c , [8] -> 38 [0]
jp [16] -> C3 [0]
jp ( hl ) -> E9
call [16] -> CD [0]
jp nz , [16] -> C2 [0]
call nz , [16] -> C4 [0]
ret nz -> C0
jp z , [16] -> CA [0]
call z , [16] -> CC [0]
ret z -> C8
jp nc , [16] -> D2 [0]
call nc , [16] -> D4 [0]
ret nc -> D0
jp c , [16] -> DA [0]
call c , [16] -> DC [0]
ret c -> D8
jp po , [16] -> E2 [0]
call po , [16] -> E4 [0]
ret po -> E0
jp pe , [16] -> EA [0]
call pe , [16] -> EC [0]
ret pe -> E8
jp p , [16] -> F2 [0]
call p , [16] -> F4 [0]
ret p -> F0
jp m , [16] -> FA [0]
call m , [16] -> FC [0]
ret m -> F8
push bc -> C5
pop bc -> C1
push de -> D5
pop de -> D1
push hl -> E5
pop hl -> E1
push af -> F5
pop af -> F1
in a , ( [8] ) -> DB [0]
out ( [8] ) , a -> D3 [0]
rlc b -> CB 00
rlc c -> CB 01
rlc d -> CB 02
rlc e -> CB 03
rlc h -> CB 04
rlc l -> CB 05
rlc ( hl ) -> CB 06
rlc a -> CB 07
rrc b -> CB 08
rrc c -> CB 09
rrc d -> CB 0A
rrc e -> CB 0B
rrc h -> CB 0C
rrc l -> CB 0D
rrc ( hl ) -> CB 0E
rrc a -> CB 0F
rl b -> CB 10
rl c -> CB 11
rl d -> CB 12
rl e -> CB 13
rl h -> CB 14
rl l -> CB 15
rl ( hl ) -> CB 16
rl a -> CB 17
rr b -> CB 18
rr c -> CB 19
rr d -> CB 1A
rr e -> CB 1B
rr h -> CB 1C
rr l -> CB 1D
rr ( hl ) -> CB 1E
rr a -> CB 1F
sla b -> CB 20
sla c -> CB 21
sla d -> CB 22
sla e -> CB 23
sla h -> CB 24
sla l -> CB 25
sla ( hl ) -> CB 26
sla a -> CB 27
sra b -> CB 28
sra c -> CB 29
sra d -> CB 2A
sra e -> CB 2B
sra h -> CB 2C
sra l -> CB 2D
sra ( hl ) -> CB 2E
sra a -> CB 2F
srl b -> CB 38
srl c -> CB 39
srl d -> CB 3A
srl e -> CB 3B
srl h -> CB 3C
srl l -> CB 3D
srl ( hl ) -> CB 3E
srl a -> CB 3F
neg -> ED 44
retn -> ED 45
reti -> ED 4D
rrd -> ED 67
rld -> ED 6F
ldi -> ED A0
cpi -> ED A1
ini -> ED A2
outi -> ED A3
ldd -> ED A8
cpd -> ED A9
ind -> ED AA
outd -> ED AB
ldir -> ED B0
cpir -> ED B1
inir -> ED B2
otir -> ED B3
lddr -> ED B8
cpdr -> ED B9
indr -> ED BA
otdr -> ED BB
ld i , a -> ED 47
ld r , a -> ED 4F
ld a , i -> ED 57
ld a , r -> ED 5F
in b , ( c ) -> ED 40
out ( c ) , b -> ED 41
in c , ( c ) -> ED 48
out ( c ) , c -> ED 49
in d , ( c ) -> ED 50
out ( c ) , d -> ED 51
in e , ( c ) -> ED 58
out ( c ) , e -> ED 59
in h , ( c ) -> ED 60
out ( c ) , h -> ED 61
in l , ( c ) -> ED 68
out ( c ) , l -> ED 69
in a , ( c ) -> ED 78
out ( c ) , a -> ED 79
sbc hl , bc -> ED 42
adc hl , bc -> ED 4A
ld ( [16] ) , bc -> ED 43 [0]
ld bc , ( [16] ) -> ED 4B [0]
sbc hl , de -> ED 52
adc hl , de -> ED 5A
ld ( [16] ) , de -> ED 53 [0]
ld de , ( [16] ) -> ED 5B [0]
sbc hl , hl -> ED 62
adc hl , hl -> ED 6A
sbc hl , sp -> ED 72
adc hl , sp -> ED 7A
ld ( [16] ) , sp -> ED 73 [0]
ld sp , ( [16] ) -> ED 7B [0]
ld ix , [16] -> DD 21 [0]
ld ( [16] ) , ix -> DD 22 [0]
ld ix , ( [16] ) -> DD 2A [0]
inc ix -> DD 23
dec ix -> DD 2B
add ix , bc -> DD 09
add ix , de -> DD 19
add ix , ix -> DD 29
add ix , sp -> DD 39
ld sp , ix -> DD F9
push ix -> DD E5
pop ix -> DD E1
ex ( sp ) , ix -> DD E3
jp ( ix ) -> DD E9
ld b , ( ix + [8] ) -> DD 46 [0]
ld ( ix + [8] ) , b -> DD 70 [0]
ld c , ( ix + [8] ) -> DD 4E [0]
ld ( ix + [8] ) , c -> DD 71 [0]
ld d , ( ix + [8] ) -> DD 56 [0]
ld ( ix + [8] ) , d -> DD 72 [0]
ld e , ( ix + [8] ) -> DD 5E [0]
ld ( ix + [8] ) , e -> DD 73 [0]
ld h , ( ix + [8] ) -> DD 66 [0]
ld ( ix + [8] ) , h -> DD 74 [0]
ld l , ( ix + [8] ) -> DD 6E [0]
ld ( ix + [8] ) , l -> DD 75 [0]
ld a , ( ix + [8] ) -> DD 7E [0]
ld ( ix + [8] ) , a -> DD 77 [0]
ld ( ix + [8] ) , [8] -> DD 36 [0] [1]
inc ( ix + [8] ) -> DD 34 [0]
dec ( ix + [8] ) -> DD 35 [0]
add a , ( ix + [8] ) -> DD 86 [0]
adc a , ( ix + [8] ) -> DD 8E [0]
sub ( ix + [8] ) -> DD 96 [0]
sbc a , ( ix + [8] ) -> DD 9E [0]
and ( ix + [8] ) -> DD A6 [0]
xor ( ix + [8] ) -> DD AE [0]
or ( ix + [8] ) -> DD B6 [0]
cp ( ix + [8] ) -> DD BE [0]
rlc ( ix + [8] ) -> DD CB [0] 06
rrc ( ix + [8] ) -> DD CB [0] 0E
rl ( ix + [8] ) -> DD CB [0] 16
rr ( ix + [8] ) -> DD CB [0] 1E
sla ( ix + [8] ) -> DD CB [0] 26
sra ( ix + [8] ) -> DD CB [0] 2E
srl ( ix + [8] ) -> DD CB [0] 3E
ld iy , [16] -> FD 21 [0]
ld ( [16] ) , iy -> FD 22 [0]
ld iy , ( [16] ) -> FD 2A [0]
inc iy -> FD 23
dec iy -> FD 2B
add iy , bc -> FD 09
add iy , de -> FD 19
add iy , iy -> FD 29
add iy , sp -> FD 39
ld sp , iy -> FD F9
push iy -> FD E5
pop iy -> FD E1
ex ( sp ) , iy -> FD E3
jp ( iy ) -> FD E9
ld b , ( iy + [8] ) -> FD 46 [0]
ld ( iy + [8] ) , b -> FD 70 [0]
ld c , ( iy + [8] ) -> FD 4E [0]
ld ( iy + [8] ) , c -> FD 71 [0]
ld d , ( iy + [8] ) -> FD 56 [0]
ld ( iy + [8] ) , d -> FD 72 [0]
ld e , ( iy + [8] ) -> FD 5E [0]
ld ( iy + [8] ) , e -> FD 73 [0]
ld h , ( iy + [8] ) -> FD 66 [0]
ld ( iy + [8] ) , h -> FD 74 [0]
ld l , ( iy + [8] ) -> FD 6E [0]
ld ( iy + [8] ) , l -> FD 75 [0]
ld a , ( iy + [8] ) -> FD 7E [0]
ld ( iy + [8] ) , a -> FD 77 [0]
ld ( iy + [8] ) , [8] -> FD 36 [0] [1]
inc ( iy + [8] ) -> FD 34 [0]
dec ( iy + [8] ) -> FD 35 [0]
add a , ( iy + [8] ) -> FD 86 [0]
adc a , ( iy + [8] ) -> FD 8E [0]
sub ( iy + [8] ) -> FD 96 [0]
sbc a , ( iy + [8] ) -> FD 9E [0]
and ( iy + [8] ) -> FD A6 [0]
xor ( iy + [8] ) -> FD AE [0]
or ( iy + [8] ) -> FD B6 [0]
cp ( iy + [8] ) -> FD BE [0]
rlc ( iy + [8] ) -> FD CB [0] 06
rrc ( iy + [8] ) -> FD CB [0] 0E
rl ( iy + [8] ) -> FD CB [0] 16
rr ( iy + [8] ) -> FD CB [0] 1E
sla ( iy + [8] ) -> FD CB [0] 26
sra ( iy + [8] ) -> FD CB [0] 2E
srl ( iy + [8] ) -> FD CB [0] 3E
@byte [8] -> [0]
";

} // verus!
