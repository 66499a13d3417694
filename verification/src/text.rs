//! Text as sequences of characters: searching, splitting, replacing and
//! trimming.

use vstd::prelude::*;

verus! {

/// `String::push` appends one character to the string.
pub assume_specification[ String::push ](s: &mut String, c: char)
    ensures
        final(s)@ == old(s)@.push(c),
;

/// The characters of `s`, in order.
pub fn chars_of(s: &str) -> (v: Vec<char>)
    ensures
        v@ == s@,
{
    let mut v: Vec<char> = Vec::new();
    for c in it: s.chars()
        invariant
            v@ == it.seq().take(it.index()),
    {
        v.push(c);
    }
    v
}

/// The string made of the characters `chars`.
pub fn string_of(chars: &Vec<char>) -> (s: String)
    ensures
        s@ == chars@,
{
    let mut s = String::new();
    let mut i: usize = 0;
    while i < chars.len()
        invariant
            i <= chars@.len(),
            s@ == chars@.subrange(0, i as int),
        decreases chars@.len() - i,
    {
        s.push(chars[i]);
        i += 1;
        assert(s@ =~= chars@.subrange(0, i as int));
    }
    assert(chars@.subrange(0, i as int) =~= chars@);
    s
}

/// The pieces of a list of texts.
pub open spec fn lines_of(v: Seq<Vec<char>>) -> Seq<Seq<char>> {
    v.map_values(|line: Vec<char>| line@)
}

/// `i` is the first place at which `c` stands in `s`.
pub open spec fn is_first(s: Seq<char>, c: char, i: int) -> bool {
    &&& 0 <= i < s.len()
    &&& s[i] == c
    &&& forall|j: int| 0 <= j < i ==> s[j] != c
}

/// The first place at which `c` stands in `s`, which holds `c`.
pub open spec fn first_index(s: Seq<char>, c: char) -> int {
    choose|i: int| is_first(s, c, i)
}

/// There is one first place only.
pub proof fn lemma_first_index(s: Seq<char>, c: char, i: int)
    requires
        is_first(s, c, i),
    ensures
        first_index(s, c) == i,
        s.contains(c),
{
    let j = first_index(s, c);
    assert(is_first(s, c, j));
    if j < i {
        assert(s[j] != c);
    }
    if i < j {
        assert(s[i] != c);
    }
}

/// Looks for the first `c` in `s`.
pub fn position(s: &Vec<char>, c: char) -> (found: Option<usize>)
    ensures
        match found {
            Some(i) => is_first(s@, c, i as int) && i == first_index(s@, c),
            None => !s@.contains(c),
        },
{
    let mut i: usize = 0;
    while i < s.len()
        invariant
            i <= s@.len(),
            forall|j: int| 0 <= j < i ==> s@[j] != c,
        decreases s@.len() - i,
    {
        if s[i] == c {
            proof {
                lemma_first_index(s@, c, i as int);
            }
            return Some(i);
        }
        i += 1;
    }
    None
}

/// The characters of `s` from `lo` up to `hi`.
pub fn slice(s: &Vec<char>, lo: usize, hi: usize) -> (part: Vec<char>)
    requires
        lo <= hi <= s@.len(),
    ensures
        part@ == s@.subrange(lo as int, hi as int),
{
    let mut part: Vec<char> = Vec::new();
    let mut i: usize = lo;
    while i < hi
        invariant
            lo <= i <= hi <= s@.len(),
            part@ == s@.subrange(lo as int, i as int),
        decreases hi - i,
    {
        part.push(s[i]);
        i += 1;
        assert(part@ =~= s@.subrange(lo as int, i as int));
    }
    part
}

/// `pat` stands in `s` at the place `i`.
pub open spec fn matches_at(s: Seq<char>, pat: Seq<char>, i: int) -> bool {
    0 <= i && i + pat.len() <= s.len() && s.subrange(i, i + pat.len()) == pat
}

/// Tells whether `pat` stands in `s` at the place `i`.
pub fn starts_at(s: &Vec<char>, pat: &Vec<char>, i: usize) -> (b: bool)
    requires
        i <= s@.len(),
    ensures
        b == matches_at(s@, pat@, i as int),
{
    if pat.len() > s.len() - i {
        return false;
    }
    let n = s.len();
    let mut k: usize = 0;
    while k < pat.len()
        invariant
            n == s@.len(),
            i + pat@.len() <= s@.len(),
            k <= pat@.len(),
            forall|x: int| 0 <= x < k ==> s@[i + x] == pat@[x],
        decreases pat@.len() - k,
    {
        if s[i + k] != pat[k] {
            assert(s@.subrange(i as int, i + pat@.len())[k as int] != pat@[k as int]);
            return false;
        }
        k += 1;
    }
    assert(s@.subrange(i as int, i + pat@.len()) =~= pat@);
    true
}

/// `s` with every occurrence of `pat` replaced by `with`.  The occurrences
/// are looked for from left to right, each one after the end of the one
/// before it.
pub open spec fn replace_all(s: Seq<char>, pat: Seq<char>, with: Seq<char>) -> Seq<char>
    decreases s.len(),
{
    if pat.len() == 0 || s.len() == 0 {
        s
    } else if matches_at(s, pat, 0) {
        with + replace_all(s.subrange(pat.len() as int, s.len() as int), pat, with)
    } else {
        seq![s[0]] + replace_all(s.subrange(1, s.len() as int), pat, with)
    }
}

/// Replaces every occurrence of `pat` in `s` by `with`.
pub fn replace(s: &Vec<char>, pat: &Vec<char>, with: &Vec<char>) -> (out: Vec<char>)
    requires
        pat@.len() > 0,
    ensures
        out@ == replace_all(s@, pat@, with@),
{
    let mut out: Vec<char> = Vec::new();
    let mut i: usize = 0;
    assert(s@.subrange(0, s@.len() as int) =~= s@);
    while i < s.len()
        invariant
            pat@.len() > 0,
            i <= s@.len(),
            replace_all(s@, pat@, with@) == out@ + replace_all(
                s@.subrange(i as int, s@.len() as int),
                pat@,
                with@,
            ),
        decreases s@.len() - i,
    {
        let ghost rest = s@.subrange(i as int, s@.len() as int);
        let ghost done = out@;
        proof {
            if i + pat@.len() <= s@.len() {
                assert(rest.subrange(0, pat@.len() as int) =~= s@.subrange(
                    i as int,
                    i + pat@.len(),
                ));
            }
        }
        if starts_at(s, pat, i) {
            let mut k: usize = 0;
            while k < with.len()
                invariant
                    k <= with@.len(),
                    out@ == done + with@.subrange(0, k as int),
                decreases with@.len() - k,
            {
                out.push(with[k]);
                k += 1;
                assert(out@ =~= done + with@.subrange(0, k as int));
            }
            assert(with@.subrange(0, k as int) =~= with@);
            i += pat.len();
            assert(rest.subrange(pat@.len() as int, rest.len() as int) =~= s@.subrange(
                i as int,
                s@.len() as int,
            ));
            assert(done + (with@ + replace_all(
                s@.subrange(i as int, s@.len() as int),
                pat@,
                with@,
            )) =~= out@ + replace_all(s@.subrange(i as int, s@.len() as int), pat@, with@));
        } else {
            out.push(s[i]);
            i += 1;
            assert(rest.subrange(1, rest.len() as int) =~= s@.subrange(
                i as int,
                s@.len() as int,
            ));
            assert(done + (seq![rest[0]] + replace_all(
                s@.subrange(i as int, s@.len() as int),
                pat@,
                with@,
            )) =~= out@ + replace_all(s@.subrange(i as int, s@.len() as int), pat@, with@));
        }
    }
    assert(out@ + Seq::<char>::empty() =~= out@);
    out
}

/// The pieces of `cur` followed by `s` that the occurrences of `pat` in `s`
/// part from one another.
pub open spec fn split_from(s: Seq<char>, pat: Seq<char>, cur: Seq<char>) -> Seq<Seq<char>>
    decreases s.len(),
{
    if pat.len() == 0 || s.len() == 0 {
        seq![cur + s]
    } else if matches_at(s, pat, 0) {
        seq![cur] + split_from(s.subrange(pat.len() as int, s.len() as int), pat, Seq::empty())
    } else {
        split_from(s.subrange(1, s.len() as int), pat, cur.push(s[0]))
    }
}

/// The pieces of `s` that the occurrences of `pat` part from one another:
/// one piece more than there are occurrences.  The occurrences are looked
/// for from left to right, each one after the end of the one before it.
pub open spec fn split(s: Seq<char>, pat: Seq<char>) -> Seq<Seq<char>> {
    split_from(s, pat, Seq::empty())
}

/// Parts `s` at the occurrences of `pat`.
pub fn split_on(s: &Vec<char>, pat: &Vec<char>) -> (pieces: Vec<Vec<char>>)
    requires
        pat@.len() > 0,
    ensures
        lines_of(pieces@) == split(s@, pat@),
{
    let mut pieces: Vec<Vec<char>> = Vec::new();
    let mut cur: Vec<char> = Vec::new();
    let mut i: usize = 0;
    assert(s@.subrange(0, s@.len() as int) =~= s@);
    assert(lines_of(pieces@) =~= Seq::empty());
    assert(Seq::<Seq<char>>::empty() + split(s@, pat@) =~= split(s@, pat@));
    while i < s.len()
        invariant
            pat@.len() > 0,
            i <= s@.len(),
            split(s@, pat@) == lines_of(pieces@) + split_from(
                s@.subrange(i as int, s@.len() as int),
                pat@,
                cur@,
            ),
        decreases s@.len() - i,
    {
        let ghost rest = s@.subrange(i as int, s@.len() as int);
        let ghost done = lines_of(pieces@);
        let ghost piece = cur@;
        proof {
            if i + pat@.len() <= s@.len() {
                assert(rest.subrange(0, pat@.len() as int) =~= s@.subrange(
                    i as int,
                    i + pat@.len(),
                ));
            }
        }
        if starts_at(s, pat, i) {
            pieces.push(cur);
            cur = Vec::new();
            i += pat.len();
            assert(lines_of(pieces@) =~= done.push(piece));
            assert(rest.subrange(pat@.len() as int, rest.len() as int) =~= s@.subrange(
                i as int,
                s@.len() as int,
            ));
            assert(done + (seq![piece] + split_from(
                s@.subrange(i as int, s@.len() as int),
                pat@,
                Seq::empty(),
            )) =~= done.push(piece) + split_from(
                s@.subrange(i as int, s@.len() as int),
                pat@,
                Seq::empty(),
            ));
        } else {
            cur.push(s[i]);
            i += 1;
            assert(rest.subrange(1, rest.len() as int) =~= s@.subrange(
                i as int,
                s@.len() as int,
            ));
        }
    }
    let ghost done = lines_of(pieces@);
    let ghost piece = cur@;
    assert(piece + s@.subrange(i as int, s@.len() as int) =~= piece);
    pieces.push(cur);
    assert(lines_of(pieces@) =~= done + seq![piece]);
    pieces
}

/// White space, as `char::is_whitespace` has it.
pub open spec fn is_space(c: char) -> bool {
    let n = c as u32;
    ||| 0x09 <= n <= 0x0d
    ||| n == 0x20
    ||| n == 0x85
    ||| n == 0xa0
    ||| n == 0x1680
    ||| 0x2000 <= n <= 0x200a
    ||| n == 0x2028
    ||| n == 0x2029
    ||| n == 0x202f
    ||| n == 0x205f
    ||| n == 0x3000
}

/// Tells whether `c` is white space.
pub fn is_blank(c: char) -> (b: bool)
    ensures
        b == is_space(c),
{
    let n: u32 = c as u32;
    (0x09 <= n && n <= 0x0d) || n == 0x20 || n == 0x85 || n == 0xa0 || n == 0x1680 || (0x2000 <= n
        && n <= 0x200a) || n == 0x2028 || n == 0x2029 || n == 0x202f || n == 0x205f || n == 0x3000
}

/// `s` without the white space at its start.
pub open spec fn trim_start(s: Seq<char>) -> Seq<char>
    decreases s.len(),
{
    if s.len() > 0 && is_space(s[0]) {
        trim_start(s.subrange(1, s.len() as int))
    } else {
        s
    }
}

/// `s` without the white space at its end.
pub open spec fn trim_end(s: Seq<char>) -> Seq<char>
    decreases s.len(),
{
    if s.len() > 0 && is_space(s.last()) {
        trim_end(s.subrange(0, s.len() - 1))
    } else {
        s
    }
}

/// `s` without the white space at its start and at its end.
pub open spec fn trim(s: Seq<char>) -> Seq<char> {
    trim_end(trim_start(s))
}

/// The text `s` without the white space at its start and at its end.
pub fn trimmed(s: &Vec<char>) -> (t: Vec<char>)
    ensures
        t@ == trim(s@),
{
    let mut lo: usize = 0;
    assert(s@.subrange(0, s@.len() as int) =~= s@);
    while lo < s.len() && is_blank(s[lo])
        invariant
            lo <= s@.len(),
            trim_start(s@) == trim_start(s@.subrange(lo as int, s@.len() as int)),
        decreases s@.len() - lo,
    {
        let ghost rest = s@.subrange(lo as int, s@.len() as int);
        lo += 1;
        assert(rest.subrange(1, rest.len() as int) =~= s@.subrange(lo as int, s@.len() as int));
    }
    let mut hi: usize = s.len();
    while hi > lo && is_blank(s[hi - 1])
        invariant
            lo <= hi <= s@.len(),
            trim(s@) == trim_end(s@.subrange(lo as int, hi as int)),
        decreases hi - lo,
    {
        let ghost rest = s@.subrange(lo as int, hi as int);
        hi -= 1;
        assert(rest.subrange(0, rest.len() - 1) =~= s@.subrange(lo as int, hi as int));
    }
    slice(s, lo, hi)
}

/// A text has at least one piece.
pub proof fn lemma_split_from_nonempty(s: Seq<char>, pat: Seq<char>, cur: Seq<char>)
    ensures
        split_from(s, pat, cur).len() >= 1,
    decreases s.len(),
{
    if pat.len() == 0 || s.len() == 0 {
    } else if matches_at(s, pat, 0) {
    } else {
        lemma_split_from_nonempty(s.subrange(1, s.len() as int), pat, cur.push(s[0]));
    }
}

/// A text in which `pat` does not occur is one piece.
pub proof fn lemma_split_from_none(s: Seq<char>, pat: Seq<char>, cur: Seq<char>)
    requires
        forall|i: int| 0 <= i < s.len() ==> !matches_at(s, pat, i),
    ensures
        split_from(s, pat, cur) == seq![cur + s],
    decreases s.len(),
{
    if pat.len() == 0 || s.len() == 0 {
    } else {
        let rest = s.subrange(1, s.len() as int);
        assert(!matches_at(s, pat, 0));
        assert forall|i: int| 0 <= i < rest.len() implies !matches_at(rest, pat, i) by {
            assert(!matches_at(s, pat, i + 1));
            if i + pat.len() <= rest.len() {
                assert(rest.subrange(i, i + pat.len()) =~= s.subrange(i + 1, i + 1 + pat.len()));
            }
        }
        lemma_split_from_none(rest, pat, cur.push(s[0]));
        assert(cur.push(s[0]) + rest =~= cur + s);
    }
}

/// Where `pat` first occurs behind `a`, the first piece ends there.
pub proof fn lemma_split_from_first(a: Seq<char>, pat: Seq<char>, r: Seq<char>, cur: Seq<char>)
    requires
        pat.len() > 0,
        forall|i: int| 0 <= i < a.len() ==> !matches_at(a + pat + r, pat, i),
    ensures
        split_from(a + pat + r, pat, cur) == seq![cur + a] + split_from(r, pat, Seq::empty()),
    decreases a.len(),
{
    let s = a + pat + r;
    if a.len() == 0 {
        assert(s.subrange(0, pat.len() as int) =~= pat);
        assert(s.subrange(pat.len() as int, s.len() as int) =~= r);
        assert(cur + a =~= cur);
    } else {
        let rest = a.subrange(1, a.len() as int);
        assert(!matches_at(s, pat, 0));
        assert(s.subrange(1, s.len() as int) =~= rest + pat + r);
        assert forall|i: int| 0 <= i < rest.len() implies !matches_at(rest + pat + r, pat, i) by {
            assert(!matches_at(s, pat, i + 1));
            if i + pat.len() <= (rest + pat + r).len() {
                assert((rest + pat + r).subrange(i, i + pat.len()) =~= s.subrange(
                    i + 1,
                    i + 1 + pat.len(),
                ));
            }
        }
        lemma_split_from_first(rest, pat, r, cur.push(s[0]));
        assert(cur.push(s[0]) + rest =~= cur + a);
    }
}

/// With a pattern of one character, the pieces of two texts in a row are
/// those of the first, the last of which goes on into the second.
pub proof fn lemma_split_from_concat(s: Seq<char>, t: Seq<char>, c: char, cur: Seq<char>)
    ensures
        split_from(s + t, seq![c], cur) == split_from(s, seq![c], cur).drop_last() + split_from(
            t,
            seq![c],
            split_from(s, seq![c], cur).last(),
        ),
    decreases s.len(),
{
    let pat = seq![c];
    if s.len() == 0 {
        assert(s + t =~= t);
        assert(cur + s =~= cur);
        assert(seq![cur].drop_last() + split_from(t, pat, cur) =~= split_from(t, pat, cur));
    } else {
        let st = s + t;
        let s1 = s.subrange(1, s.len() as int);
        assert(st.subrange(1, st.len() as int) =~= s1 + t);
        assert(st[0] == s[0]);
        if s[0] == c {
            assert(st.subrange(0, 1) =~= pat);
            assert(s.subrange(0, 1) =~= pat);
            let none = Seq::<char>::empty();
            lemma_split_from_concat(s1, t, c, none);
            lemma_split_from_nonempty(s1, pat, none);
            let r = split_from(s1, pat, none);
            assert((seq![cur] + r).drop_last() =~= seq![cur] + r.drop_last());
            assert(seq![cur] + (r.drop_last() + split_from(t, pat, r.last())) =~= (seq![cur]
                + r.drop_last()) + split_from(t, pat, r.last()));
        } else {
            assert(st.subrange(0, 1)[0] != pat[0]);
            assert(s.subrange(0, 1)[0] != pat[0]);
            lemma_split_from_concat(s1, t, c, cur.push(s[0]));
        }
    }
}

/// White space in front of a text is trimmed away.
pub proof fn lemma_trim_start_space(c: char, s: Seq<char>)
    requires
        is_space(c),
    ensures
        trim_start(seq![c] + s) == trim_start(s),
{
    let all = seq![c] + s;
    assert(all.subrange(1, all.len() as int) =~= s);
}

/// White space behind a text is trimmed away.
pub proof fn lemma_trim_end_space(s: Seq<char>, c: char)
    requires
        is_space(c),
    ensures
        trim_end(s.push(c)) == trim_end(s),
{
    let all = s.push(c);
    assert(all.subrange(0, all.len() - 1) =~= s);
}

} // verus!
