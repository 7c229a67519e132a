use vstd::prelude::*;
use crate::util::{Name, pow2};

verus! {

#[derive(PartialEq, Eq, Clone, Copy, Debug, Structural)]
pub struct Reg {
    pub index: u8,
}

/// A predicate: the instruction runs when predicate register `reg` holds
/// (does not hold, when `inverted`).
#[derive(PartialEq, Eq, Clone, Copy, Debug, Structural)]
pub struct Pred {
    pub inverted: bool,
    pub reg: u8,
}

#[derive(PartialEq, Eq, Clone, Copy, Debug, Structural)]
pub enum AluOp {
    AddAluOp,
    SubAluOp,
    RsbAluOp,
    AndAluOp,
    OrAluOp,
    XorAluOp,
    MovAluOp,
    MvnAluOp,
}

#[derive(PartialEq, Eq, Clone, Copy, Debug, Structural)]
pub enum ShiftType {
    SllShift,
    SrlShift,
    SraShift,
    RorShift,
}

#[derive(PartialEq, Eq, Clone, Copy, Debug, Structural)]
pub enum CompareType {
    CmpEQ,
    CmpLTS,
    CmpLTU,
    CmpLES,
    CmpLEU,
    /// Bit set: the operands share a set bit.
    CmpBS,
}

#[derive(PartialEq, Eq, Clone, Copy, Debug, Structural)]
pub enum LsuWidth {
    LsuWidthL,
    LsuWidthH,
    LsuWidthB,
}

#[derive(PartialEq, Eq, Clone, Copy, Debug, Structural)]
pub struct LsuOp {
    pub store: bool,
    pub width: LsuWidth,
}

/// Where a branch goes: a function's entry or a local label of the IR.
#[derive(PartialEq, Eq, Clone, Copy, Debug, Structural)]
pub enum JumpTarget {
    FuncLabel(Name),
    LocalLabel(usize),
}

/// A target instruction. Short forms carry a packed immediate (value and
/// rotation); long forms are followed by one `Long` literal packet.
#[derive(PartialEq, Eq, Clone, Copy, Debug, Structural)]
pub enum InstNode {
    Alu1Reg(Pred, AluOp, Reg, Reg, ShiftType, u8),
    Alu1Short(Pred, AluOp, Reg, u32, u32),
    Alu1Long(Pred, AluOp, Reg),
    Alu2Reg(Pred, AluOp, Reg, Reg, Reg, ShiftType, u8),
    Alu2Short(Pred, AluOp, Reg, Reg, u32, u32),
    Alu2Long(Pred, AluOp, Reg, Reg),
    /// Predicate, destination predicate, left register, comparison, right register.
    CompareReg(Pred, Pred, Reg, CompareType, Reg, ShiftType, u8),
    CompareShort(Pred, Pred, Reg, CompareType, u32, u32),
    CompareLong(Pred, Pred, Reg, CompareType),
    /// Destination register, base register, offset.
    Load(Pred, LsuOp, Reg, Reg, i32),
    /// Base register, offset, source register.
    Store(Pred, LsuOp, Reg, i32, Reg),
    /// Branch to a label, with link when the flag is set.
    BranchImm(Pred, bool, JumpTarget),
    BranchReg(Pred, bool, Reg, i32),
    Long(u32),
}

/// Number of registers that pass arguments, starting from register 0.
pub const NUM_PARAM_REGS: usize = 8;
/// Number of registers that the colorer may hand out, starting from register 0.
pub const NUM_USABLE_VARS: u8 = 27;
/// First of the three registers that hold spilled values while they are used.
pub const SPILL_REG_BASE: u8 = 27;
pub const STACK_POINTER: u8 = 30;
pub const LINK_REGISTER: u8 = 31;
/// The register that carries a function's result.
pub const RETURN_REG: u8 = 0;
pub const FIRST_CALLEE_SAVED_REG: u8 = 8;
/// The predicate register that always holds.
pub const TRUE_PRED_REG: u8 = 3;

pub open spec fn true_pred() -> Pred {
    Pred { inverted: false, reg: TRUE_PRED_REG }
}

pub open spec fn sp() -> Reg {
    Reg { index: STACK_POINTER }
}

pub open spec fn lr() -> Reg {
    Reg { index: LINK_REGISTER }
}

/// `n` rotated right by `s` bits within 32 bits.
pub open spec fn rotr(n: int, s: nat) -> int {
    n / pow2(s) as int + (n % pow2(s) as int) * pow2((32 - s) as nat) as int
}

/// The 32-bit value that a packed immediate (value, rotation) stands for:
/// the value rotated left by twice the rotation.
pub open spec fn unpack(v: int, rot: int) -> int {
    if rot == 0 { v } else { rotr(v, (32 - 2 * rot) as nat) }
}

proof fn lemma_pow2_add(a: nat, b: nat)
    ensures
        pow2(a) * pow2(b) == pow2(a + b),
    decreases a,
{
    if a > 0 {
        lemma_pow2_add((a - 1) as nat, b);
        assert((a - 1) as nat + b == (a + b - 1) as nat);
        assert(pow2(a + b) == 2 * pow2((a + b - 1) as nat));
        assert(pow2(a) * pow2(b) == 2 * (pow2((a - 1) as nat) * pow2(b))) by (nonlinear_arith)
            requires pow2(a) == 2 * pow2((a - 1) as nat);
    } else {
        assert(pow2(a) == 1);
        assert(a + b == b);
    }
}

proof fn lemma_pow2_pos(a: nat)
    ensures
        pow2(a) >= 1,
    decreases a,
{
    if a > 0 {
        lemma_pow2_pos((a - 1) as nat);
    }
}

proof fn lemma_pow2_consts()
    ensures
        pow2(1) == 2,
        pow2(31) == 2147483648,
        pow2(32) == 4294967296,
{
    reveal_with_fuel(pow2, 33);
}

proof fn lemma_pow2_bound(bits: nat)
    requires
        bits <= 31,
    ensures
        pow2(bits) <= 2147483648,
{
    lemma_pow2_add(bits, (31 - bits) as nat);
    lemma_pow2_pos((31 - bits) as nat);
    lemma_pow2_consts();
    assert(pow2(bits) <= 2147483648) by (nonlinear_arith)
        requires pow2(bits) * pow2((31 - bits) as nat) == 2147483648, pow2((31 - bits) as nat) >= 1;
}

fn pow2_exec(e: u32) -> (r: u64)
    requires
        e <= 32,
    ensures
        r == pow2(e as nat),
{
    let mut r: u64 = 1;
    let mut i: u32 = 0;
    while i < e
        invariant
            i <= e <= 32,
            r == pow2(i as nat),
        decreases e - i,
    {
        proof {
            lemma_pow2_add(i as nat, 1);
            lemma_pow2_add(i as nat, (32 - i) as nat);
            lemma_pow2_pos((32 - i) as nat);
            lemma_pow2_consts();
            assert(r * pow2((32 - i) as nat) == 4294967296);
            assert(r <= 4294967296) by (nonlinear_arith)
                requires r * pow2((32 - i) as nat) == 4294967296, pow2((32 - i) as nat) >= 1;
        }
        r = r * 2;
        i = i + 1;
    }
    r
}

/// `n` (below 2^32) rotated right by `s` bits.
fn rotr_exec(n: u64, s: u32) -> (r: u64)
    requires
        n < 4294967296,
        s <= 32,
    ensures
        r == rotr(n as int, s as nat),
        r < 8589934592,
{
    let p = pow2_exec(s);
    let q = pow2_exec(32 - s);
    proof {
        lemma_pow2_add(s as nat, (32 - s) as nat);
        lemma_pow2_pos(s as nat);
        lemma_pow2_pos((32 - s) as nat);
        lemma_pow2_consts();
        assert((n % p) * q < 4294967296) by (nonlinear_arith)
            requires p * q == 4294967296, p >= 1, q >= 1, n % p < p;
        assert(n / p <= n) by (nonlinear_arith)
            requires p >= 1, n >= 0;
    }
    n / p + (n % p) * q
}

/// Rotating `num` right by twice `k` gives a value of at most `bits` bits
/// that unpacks, with rotation `k`, back to `num`.
pub open spec fn packs_at(num: int, bits: nat, k: int) -> bool {
    let v = rotr(num, (2 * k) as nat);
    v < pow2(bits) && unpack(v, k) == num
}

/// The packing that `pack_int` chooses, trying rotations from `k` upward.
pub open spec fn pack_from(num: int, bits: nat, k: int) -> Option<(u32, u32)>
    decreases 16 - k,
{
    if k >= 16 || k < 0 {
        None
    } else if packs_at(num, bits, k) {
        Some((rotr(num, (2 * k) as nat) as u32, k as u32))
    } else {
        pack_from(num, bits, k + 1)
    }
}

pub open spec fn pack_spec(num: u32, bits: u32) -> Option<(u32, u32)> {
    pack_from(num as int, bits as nat, 0)
}

/// Packs `num` into an immediate of `bits` bits and a rotation in 0..16,
/// choosing the smallest rotation that works, or `None` when none does.
pub fn pack_int(num: u32, bits: u32) -> (r: Option<(u32, u32)>)
    requires
        bits <= 31,
    ensures
        r matches Some((v, rot)) ==> v < pow2(bits as nat) && rot < 16 && unpack(v as int, rot as int) == num,
        r matches Some((v, rot)) ==> forall|k: int| 0 <= k < rot ==> !#[trigger] packs_at(num as int, bits as nat, k),
        r is None ==> forall|k: int| 0 <= k < 16 ==> !#[trigger] packs_at(num as int, bits as nat, k),
        r == pack_spec(num, bits),
{
    let limit = pow2_exec(bits);
    proof {
        lemma_pow2_bound(bits as nat);
    }
    let mut rot: u32 = 0;
    while rot < 16
        invariant
            rot <= 16,
            bits <= 31,
            limit == pow2(bits as nat),
            limit <= 2147483648,
            forall|k: int| 0 <= k < rot ==> !#[trigger] packs_at(num as int, bits as nat, k),
            pack_spec(num, bits) == pack_from(num as int, bits as nat, rot as int),
        decreases 16 - rot,
    {
        let v = rotr_exec(num as u64, 2 * rot);
        if v < limit {
            let back = if rot == 0 { v } else { rotr_exec(v, 32 - 2 * rot) };
            if back == num as u64 {
                return Some((v as u32, rot));
            }
        }
        rot = rot + 1;
    }
    None
}

} // verus!
