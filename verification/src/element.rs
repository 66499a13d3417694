//! What a value needs in order to serve as a node or as an edge label.

use vstd::prelude::*;

verus! {

/// A value that can be compared, copied and written as text.
///
/// The view `self@` is the mathematical value.  Two elements stand for the
/// same node, or for the same label, exactly when their views are equal.
pub trait Element: View + Sized {
    /// The text that stands for a value in the textual form of a graph.
    spec fn text_of(v: Self::V) -> Seq<char>;

    /// Tells whether two elements have the same value.
    fn same(&self, other: &Self) -> (b: bool)
        ensures
            b == (self@ == other@),
    ;

    /// A second element with the same value.
    fn duplicate(&self) -> (d: Self)
        ensures
            d@ == self@,
    ;

    /// The text of the value.
    fn text(&self) -> (s: String)
        ensures
            s@ == Self::text_of(self@),
    ;
}

/// The values of a sequence of elements.
pub open spec fn values_of<T: View>(s: Seq<T>) -> Seq<T::V> {
    s.map_values(|t: T| t@)
}

/// The decimal digit for `d`, which is less than ten.
pub open spec fn digit_char(d: int) -> char {
    if d == 0 {
        '0'
    } else if d == 1 {
        '1'
    } else if d == 2 {
        '2'
    } else if d == 3 {
        '3'
    } else if d == 4 {
        '4'
    } else if d == 5 {
        '5'
    } else if d == 6 {
        '6'
    } else if d == 7 {
        '7'
    } else if d == 8 {
        '8'
    } else {
        '9'
    }
}

/// A natural number in decimal digits, without leading zeros.
pub open spec fn decimal(n: nat) -> Seq<char>
    decreases n,
{
    if n < 10 {
        seq![digit_char(n as int)]
    } else {
        decimal(n / 10).push(digit_char((n % 10) as int))
    }
}

/// An integer in decimal digits, with a minus sign where it is negative.
pub open spec fn signed_decimal(x: int) -> Seq<char> {
    if x < 0 {
        seq!['-'] + decimal((-x) as nat)
    } else {
        decimal(x as nat)
    }
}

fn digit(d: u64) -> (c: char)
    requires
        d < 10,
    ensures
        c == digit_char(d as int),
{
    if d == 0 {
        '0'
    } else if d == 1 {
        '1'
    } else if d == 2 {
        '2'
    } else if d == 3 {
        '3'
    } else if d == 4 {
        '4'
    } else if d == 5 {
        '5'
    } else if d == 6 {
        '6'
    } else if d == 7 {
        '7'
    } else if d == 8 {
        '8'
    } else {
        '9'
    }
}

/// Appends the decimal digits of `n` to `out`.
pub fn write_decimal(n: u64, out: &mut String)
    ensures
        final(out)@ == old(out)@ + decimal(n as nat),
    decreases n,
{
    if n >= 10 {
        write_decimal(n / 10, out);
    }
    out.push(digit(n % 10));
    assert(final(out)@ =~= old(out)@ + decimal(n as nat));
}

/// The decimal text of `n`.
pub fn decimal_text(n: u64) -> (s: String)
    ensures
        s@ == decimal(n as nat),
{
    let mut s = String::new();
    write_decimal(n, &mut s);
    assert(s@ =~= decimal(n as nat));
    s
}

/// The decimal text of `x`.
pub fn signed_decimal_text(x: i64) -> (s: String)
    ensures
        s@ == signed_decimal(x as int),
{
    let mut s = String::new();
    if x < 0 {
        s.push('-');
        let size: u64 = (-(x + 1)) as u64 + 1;
        write_decimal(size, &mut s);
        assert(s@ =~= signed_decimal(x as int));
    } else {
        write_decimal(x as u64, &mut s);
        assert(s@ =~= signed_decimal(x as int));
    }
    s
}

impl Element for String {
    open spec fn text_of(v: Seq<char>) -> Seq<char> {
        v
    }

    fn same(&self, other: &Self) -> (b: bool) {
        *self == *other
    }

    fn duplicate(&self) -> (d: Self) {
        self.clone()
    }

    fn text(&self) -> (s: String) {
        self.clone()
    }
}

impl Element for i32 {
    open spec fn text_of(v: i32) -> Seq<char> {
        signed_decimal(v as int)
    }

    fn same(&self, other: &Self) -> (b: bool) {
        *self == *other
    }

    fn duplicate(&self) -> (d: Self) {
        *self
    }

    fn text(&self) -> (s: String) {
        signed_decimal_text(*self as i64)
    }
}

impl Element for i64 {
    open spec fn text_of(v: i64) -> Seq<char> {
        signed_decimal(v as int)
    }

    fn same(&self, other: &Self) -> (b: bool) {
        *self == *other
    }

    fn duplicate(&self) -> (d: Self) {
        *self
    }

    fn text(&self) -> (s: String) {
        signed_decimal_text(*self)
    }
}

impl Element for u32 {
    open spec fn text_of(v: u32) -> Seq<char> {
        decimal(v as nat)
    }

    fn same(&self, other: &Self) -> (b: bool) {
        *self == *other
    }

    fn duplicate(&self) -> (d: Self) {
        *self
    }

    fn text(&self) -> (s: String) {
        decimal_text(*self as u64)
    }
}

impl Element for u64 {
    open spec fn text_of(v: u64) -> Seq<char> {
        decimal(v as nat)
    }

    fn same(&self, other: &Self) -> (b: bool) {
        *self == *other
    }

    fn duplicate(&self) -> (d: Self) {
        *self
    }

    fn text(&self) -> (s: String) {
        decimal_text(*self)
    }
}

impl Element for usize {
    open spec fn text_of(v: usize) -> Seq<char> {
        decimal(v as nat)
    }

    fn same(&self, other: &Self) -> (b: bool) {
        *self == *other
    }

    fn duplicate(&self) -> (d: Self) {
        *self
    }

    fn text(&self) -> (s: String) {
        decimal_text(*self as u64)
    }
}

} // verus!
