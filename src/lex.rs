use vstd::prelude::*;

verus! {

/// Line splitting as a left-to-right scan: the finished lines, and the line
/// being read. A `\r` right before `\n` is dropped.
pub open spec fn line_scan(s: Seq<u8>) -> (Seq<Seq<u8>>, Seq<u8>)
    decreases s.len(),
{
    if s.len() == 0 {
        (Seq::empty(), Seq::empty())
    } else {
        let prev = line_scan(s.drop_last());
        if s.last() == 10u8 {
            (prev.0.push(strip_cr(prev.1)), Seq::empty())
        } else {
            (prev.0, prev.1.push(s.last()))
        }
    }
}

/// `l` without one trailing carriage return.
pub open spec fn strip_cr(l: Seq<u8>) -> Seq<u8> {
    if l.len() > 0 && l.last() == 13u8 {
        l.drop_last()
    } else {
        l
    }
}

/// The lines of a text; the last line needs no line feed, and no empty line
/// follows a final line feed.
pub open spec fn lines_of(s: Seq<u8>) -> Seq<Seq<u8>> {
    let st = line_scan(s);
    if st.1.len() > 0 {
        st.0.push(st.1)
    } else {
        st.0
    }
}

/// ASCII white space.
pub open spec fn is_space(b: u8) -> bool {
    b == 32u8 || b == 9u8 || b == 10u8 || b == 11u8 || b == 12u8 || b == 13u8
}

/// Token splitting as a left-to-right scan: finished tokens and the token
/// being read.
pub open spec fn token_scan(s: Seq<u8>) -> (Seq<Seq<u8>>, Seq<u8>)
    decreases s.len(),
{
    if s.len() == 0 {
        (Seq::empty(), Seq::empty())
    } else {
        let prev = token_scan(s.drop_last());
        if is_space(s.last()) {
            if prev.1.len() > 0 {
                (prev.0.push(prev.1), Seq::empty())
            } else {
                prev
            }
        } else {
            (prev.0, prev.1.push(s.last()))
        }
    }
}

/// The maximal runs of non-space bytes of a line.
pub open spec fn tokens_of(s: Seq<u8>) -> Seq<Seq<u8>> {
    let st = token_scan(s);
    if st.1.len() > 0 {
        st.0.push(st.1)
    } else {
        st.0
    }
}

/// The byte vectors of a list, as sequences.
pub open spec fn bytes_view(v: Seq<Vec<u8>>) -> Seq<Seq<u8>> {
    v.map_values(|b: Vec<u8>| b@)
}

/// Splits a text into lines.
pub fn split_lines(s: &[u8]) -> (r: Vec<Vec<u8>>)
    ensures
        bytes_view(r@) == lines_of(s@),
{
    let mut done: Vec<Vec<u8>> = Vec::new();
    let mut cur: Vec<u8> = Vec::new();
    let mut i: usize = 0;
    assert(s@.take(0) =~= Seq::<u8>::empty());
    assert(bytes_view(done@) =~= Seq::<Seq<u8>>::empty());
    while i < s.len()
        invariant
            i <= s@.len(),
            line_scan(s@.take(i as int)) == (bytes_view(done@), cur@),
        decreases s@.len() - i,
    {
        let b = s[i];
        assert(s@.take(i + 1).drop_last() =~= s@.take(i as int));
        assert(s@.take(i + 1).last() == b);
        if b == 10u8 {
            if cur.len() > 0 && cur[cur.len() - 1] == 13u8 {
                cur.pop();
            }
            let ghost pre = bytes_view(done@);
            done.push(cur);
            assert(bytes_view(done@) =~= pre.push(done@.last()@));
            cur = Vec::new();
            assert(cur@ =~= Seq::<u8>::empty());
        } else {
            cur.push(b);
        }
        i = i + 1;
    }
    assert(s@.take(i as int) =~= s@);
    if cur.len() > 0 {
        let ghost pre = bytes_view(done@);
        done.push(cur);
        assert(bytes_view(done@) =~= pre.push(done@.last()@));
    }
    done
}

/// Splits a line into its tokens.
pub fn split_tokens(s: &Vec<u8>) -> (r: Vec<Vec<u8>>)
    ensures
        bytes_view(r@) == tokens_of(s@),
{
    let mut done: Vec<Vec<u8>> = Vec::new();
    let mut cur: Vec<u8> = Vec::new();
    let mut i: usize = 0;
    assert(s@.take(0) =~= Seq::<u8>::empty());
    assert(bytes_view(done@) =~= Seq::<Seq<u8>>::empty());
    while i < s.len()
        invariant
            i <= s@.len(),
            token_scan(s@.take(i as int)) == (bytes_view(done@), cur@),
        decreases s@.len() - i,
    {
        let b = s[i];
        assert(s@.take(i + 1).drop_last() =~= s@.take(i as int));
        assert(s@.take(i + 1).last() == b);
        if b == 32u8 || b == 9u8 || b == 10u8 || b == 11u8 || b == 12u8 || b == 13u8 {
            if cur.len() > 0 {
                let ghost pre = bytes_view(done@);
                done.push(cur);
                assert(bytes_view(done@) =~= pre.push(done@.last()@));
                cur = Vec::new();
                assert(cur@ =~= Seq::<u8>::empty());
            }
        } else {
            cur.push(b);
        }
        i = i + 1;
    }
    assert(s@.take(i as int) =~= s@);
    if cur.len() > 0 {
        let ghost pre = bytes_view(done@);
        done.push(cur);
        assert(bytes_view(done@) =~= pre.push(done@.last()@));
    }
    done
}

/// An ASCII decimal digit.
pub open spec fn is_digit(b: u8) -> bool {
    48u8 <= b <= 57u8
}

/// The value of a string of decimal digits.
pub open spec fn digits_value(s: Seq<u8>) -> nat
    decreases s.len(),
{
    if s.len() == 0 {
        0
    } else {
        digits_value(s.drop_last()) * 10 + (s.last() - 48u8) as nat
    }
}

/// Digits only, at least one.
pub open spec fn all_digits(s: Seq<u8>) -> bool {
    s.len() > 0 && forall|i: int| 0 <= i < s.len() ==> #[trigger] is_digit(s[i])
}

/// The number a token writes in decimal, with an optional `+`.
pub open spec fn unsigned_token(t: Seq<u8>) -> Option<nat> {
    if all_digits(t) {
        Some(digits_value(t))
    } else if t.len() > 0 && t[0] == 43u8 && all_digits(t.drop_first()) {
        Some(digits_value(t.drop_first()))
    } else {
        None
    }
}

/// The integer a token writes in decimal, with an optional sign.
pub open spec fn signed_token(t: Seq<u8>) -> Option<int> {
    if t.len() > 0 && t[0] == 45u8 && all_digits(t.drop_first()) {
        Some(-digits_value(t.drop_first()))
    } else {
        match unsigned_token(t) {
            Some(v) => Some(v as int),
            None => None,
        }
    }
}

/// A longer string of digits has a value at least as large.
pub proof fn lemma_digits_grow(s: Seq<u8>, k: int)
    requires
        all_digits(s),
        0 <= k <= s.len(),
    ensures
        digits_value(s) >= digits_value(s.take(k)),
    decreases s.len(),
{
    if k < s.len() {
        let p = s.drop_last();
        if p.len() > 0 {
            assert(is_digit(s[0]));
            assert forall|i: int| 0 <= i < p.len() implies #[trigger] is_digit(p[i]) by {
                assert(is_digit(s[i]));
            }
            lemma_digits_grow(p, k);
            assert(p.take(k) =~= s.take(k));
        } else {
            assert(s.take(k) =~= Seq::<u8>::empty());
        }
    } else {
        assert(s.take(k) =~= s);
    }
}

/// The value of the digits of `t` from position `start`, if it fits `limit`.
fn digits_from(t: &Vec<u8>, start: usize, limit: usize) -> (r: Option<usize>)
    requires
        start <= t@.len(),
    ensures
        r matches Some(v) ==> all_digits(t@.skip(start as int)) && v == digits_value(
            t@.skip(start as int),
        ) && v <= limit,
        r is None ==> !all_digits(t@.skip(start as int)) || digits_value(t@.skip(start as int))
            > limit,
{
    if start == t.len() {
        return None;
    }
    let mut v: usize = 0;
    let mut i: usize = start;
    assert(t@.skip(start as int).take(0) =~= Seq::<u8>::empty());
    while i < t.len()
        invariant
            start <= i <= t@.len(),
            start < t@.len(),
            forall|k: int| start <= k < i ==> #[trigger] is_digit(t@[k]),
            v == digits_value(t@.skip(start as int).take(i - start)),
            v <= limit,
        decreases t@.len() - i,
    {
        let b = t[i];
        let ghost pre = t@.skip(start as int).take(i - start);
        let ghost post = t@.skip(start as int).take(i + 1 - start);
        assert(post.drop_last() =~= pre);
        assert(post.last() == b);
        if b < 48u8 || b > 57u8 {
            assert(!is_digit(t@.skip(start as int)[i - start]));
            return None;
        }
        let d = (b - 48u8) as usize;
        if d > limit || v > (limit - d) / 10 {
            proof {
                assert(digits_value(post) == v * 10 + d);
                if d <= limit {
                    assert(v * 10 + d > limit) by (nonlinear_arith)
                        requires
                            v > (limit - d) / 10,
                            d <= limit,
                    ;
                }
                let rest = t@.skip(start as int);
                if all_digits(rest) {
                    lemma_digits_grow(rest, (i + 1 - start) as int);
                }
            }
            return None;
        }
        assert(v * 10 + d <= limit) by (nonlinear_arith)
            requires
                v <= (limit - d) / 10,
                d <= 9,
        ;
        v = v * 10 + d;
        i = i + 1;
    }
    assert(t@.skip(start as int).take(i - start) =~= t@.skip(start as int));
    Some(v)
}

/// The `usize` a token writes, if it fits.
pub open spec fn usize_token(t: Seq<u8>) -> Option<usize> {
    match unsigned_token(t) {
        Some(v) => if v <= usize::MAX {
            Some(v as usize)
        } else {
            None
        },
        None => None,
    }
}

/// The `isize` a token writes, if it fits.
pub open spec fn isize_token(t: Seq<u8>) -> Option<isize> {
    match signed_token(t) {
        Some(v) => if isize::MIN <= v <= isize::MAX {
            Some(v as isize)
        } else {
            None
        },
        None => None,
    }
}

/// Reads a token as a `usize`.
pub fn parse_usize(t: &Vec<u8>) -> (r: Option<usize>)
    ensures
        r == usize_token(t@),
{
    if t.len() > 0 && t[0] == 43u8 {
        assert(!is_digit(t@[0]));
        assert(t@.skip(1) =~= t@.drop_first());
        digits_from(t, 1, usize::MAX)
    } else {
        assert(t@.skip(0) =~= t@);
        let r = digits_from(t, 0, usize::MAX);
        if t.len() > 0 {
            assert(!all_digits(t@) ==> !(t@[0] == 43u8 && all_digits(t@.drop_first())));
        }
        r
    }
}

/// Reads a token as an `isize`.
pub fn parse_isize(t: &Vec<u8>) -> (r: Option<isize>)
    ensures
        r == isize_token(t@),
{
    if t.len() > 0 && t[0] == 45u8 {
        assert(t@.skip(1) =~= t@.drop_first());
        assert(!is_digit(t@[0]));
        match digits_from(t, 1, isize::MAX as usize + 1) {
            Some(v) => {
                if v == isize::MAX as usize + 1 {
                    Some(isize::MIN)
                } else {
                    Some(-(v as isize))
                }
            },
            None => None,
        }
    } else {
        match parse_usize(t) {
            Some(v) => {
                if v <= isize::MAX as usize {
                    Some(v as isize)
                } else {
                    None
                }
            },
            None => None,
        }
    }
}

/// A token of one given byte.
pub open spec fn is_word(t: Seq<u8>, b: u8) -> bool {
    t.len() == 1 && t[0] == b
}

/// Whether a token is the one byte `b`.
pub fn token_is(t: &Vec<u8>, b: u8) -> (r: bool)
    ensures
        r == is_word(t@, b),
{
    t.len() == 1 && t[0] == b
}

/// A line that begins with the byte `b`.
pub open spec fn starts_with(l: Seq<u8>, b: u8) -> bool {
    l.len() > 0 && l[0] == b
}

/// Whether a line begins with the byte `b`.
pub fn line_starts_with(l: &Vec<u8>, b: u8) -> (r: bool)
    ensures
        r == starts_with(l@, b),
{
    l.len() > 0 && l[0] == b
}

} // verus!
