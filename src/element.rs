//! What a partition needs of its elements: a total order, given as an integer
//! rank, and a printed form.
use vstd::prelude::*;
use vstd::string::StringExecFns;

verus! {

/// A value that can stand in a partition.
pub trait Element: Copy {
    /// The position of the value in the element order.
    spec fn rank(self) -> int;

    /// The printed form of the value.
    spec fn text(self) -> Seq<char>;

    /// Distinct values have distinct ranks, so the rank order is total.
    proof fn lemma_rank_injective(a: Self, b: Self)
        requires
            a.rank() == b.rank(),
        ensures
            a == b,
    ;

    /// Whether `self` comes strictly before `other`.
    fn precedes(&self, other: &Self) -> (r: bool)
        ensures
            r == (self.rank() < other.rank()),
    ;

    /// Appends the printed form of the value to `out`.
    fn write_text(&self, out: &mut String)
        ensures
            final(out)@ == old(out)@ + self.text(),
    ;
}

/// The character of the decimal digit `d`.
pub open spec fn digit_char(d: nat) -> char {
    seq!['0', '1', '2', '3', '4', '5', '6', '7', '8', '9'][d as int]
}

/// The decimal numeral of `n`, without leading zeros.
pub open spec fn decimal(n: nat) -> Seq<char>
    decreases n,
{
    if n < 10 {
        seq![digit_char(n)]
    } else {
        decimal(n / 10).push(digit_char(n % 10))
    }
}

fn digit_str(d: u64) -> (r: &'static str)
    requires
        d < 10,
    ensures
        r@ == seq![digit_char(d as nat)],
{
    proof {
        reveal_strlit("0");
        reveal_strlit("1");
        reveal_strlit("2");
        reveal_strlit("3");
        reveal_strlit("4");
        reveal_strlit("5");
        reveal_strlit("6");
        reveal_strlit("7");
        reveal_strlit("8");
        reveal_strlit("9");
    }
    match d {
        0 => "0",
        1 => "1",
        2 => "2",
        3 => "3",
        4 => "4",
        5 => "5",
        6 => "6",
        7 => "7",
        8 => "8",
        _ => "9",
    }
}

/// Appends the decimal numeral of `n` to `out`.
pub fn write_decimal(n: u64, out: &mut String)
    ensures
        final(out)@ == old(out)@ + decimal(n as nat),
    decreases n,
{
    if n >= 10 {
        write_decimal(n / 10, out);
    }
    let d = digit_str(n % 10);
    out.append(d);
    assert(out@ =~= old(out)@ + decimal(n as nat));
}

/// The decimal numeral of `n`, with a leading `-` when `n` is negative.
pub open spec fn signed_decimal(n: int) -> Seq<char> {
    if n < 0 {
        seq!['-'] + decimal((-n) as nat)
    } else {
        decimal(n as nat)
    }
}

/// Appends the signed decimal numeral of `n` to `out`.
pub fn write_signed_decimal(n: i64, out: &mut String)
    ensures
        final(out)@ == old(out)@ + signed_decimal(n as int),
{
    if n < 0 {
        let below: i64 = -(n + 1);
        let magnitude: u64 = below as u64 + 1;
        proof {
            reveal_strlit("-");
        }
        out.append("-");
        write_decimal(magnitude, out);
        assert(out@ =~= old(out)@ + signed_decimal(n as int));
    } else {
        write_decimal(n as u64, out);
    }
}

impl Element for u8 {
    open spec fn rank(self) -> int {
        self as int
    }

    open spec fn text(self) -> Seq<char> {
        decimal(self as nat)
    }

    proof fn lemma_rank_injective(a: Self, b: Self) {
    }

    fn precedes(&self, other: &Self) -> (r: bool) {
        *self < *other
    }

    fn write_text(&self, out: &mut String) {
        write_decimal(*self as u64, out);
    }
}

impl Element for u16 {
    open spec fn rank(self) -> int {
        self as int
    }

    open spec fn text(self) -> Seq<char> {
        decimal(self as nat)
    }

    proof fn lemma_rank_injective(a: Self, b: Self) {
    }

    fn precedes(&self, other: &Self) -> (r: bool) {
        *self < *other
    }

    fn write_text(&self, out: &mut String) {
        write_decimal(*self as u64, out);
    }
}

impl Element for u32 {
    open spec fn rank(self) -> int {
        self as int
    }

    open spec fn text(self) -> Seq<char> {
        decimal(self as nat)
    }

    proof fn lemma_rank_injective(a: Self, b: Self) {
    }

    fn precedes(&self, other: &Self) -> (r: bool) {
        *self < *other
    }

    fn write_text(&self, out: &mut String) {
        write_decimal(*self as u64, out);
    }
}

impl Element for u64 {
    open spec fn rank(self) -> int {
        self as int
    }

    open spec fn text(self) -> Seq<char> {
        decimal(self as nat)
    }

    proof fn lemma_rank_injective(a: Self, b: Self) {
    }

    fn precedes(&self, other: &Self) -> (r: bool) {
        *self < *other
    }

    fn write_text(&self, out: &mut String) {
        write_decimal(*self as u64, out);
    }
}

impl Element for usize {
    open spec fn rank(self) -> int {
        self as int
    }

    open spec fn text(self) -> Seq<char> {
        decimal(self as nat)
    }

    proof fn lemma_rank_injective(a: Self, b: Self) {
    }

    fn precedes(&self, other: &Self) -> (r: bool) {
        *self < *other
    }

    fn write_text(&self, out: &mut String) {
        write_decimal(*self as u64, out);
    }
}

impl Element for i32 {
    open spec fn rank(self) -> int {
        self as int
    }

    open spec fn text(self) -> Seq<char> {
        signed_decimal(self as int)
    }

    proof fn lemma_rank_injective(a: Self, b: Self) {
    }

    fn precedes(&self, other: &Self) -> (r: bool) {
        *self < *other
    }

    fn write_text(&self, out: &mut String) {
        write_signed_decimal(*self as i64, out);
    }
}

impl Element for i64 {
    open spec fn rank(self) -> int {
        self as int
    }

    open spec fn text(self) -> Seq<char> {
        signed_decimal(self as int)
    }

    proof fn lemma_rank_injective(a: Self, b: Self) {
    }

    fn precedes(&self, other: &Self) -> (r: bool) {
        *self < *other
    }

    fn write_text(&self, out: &mut String) {
        write_signed_decimal(*self as i64, out);
    }
}

} // verus!
