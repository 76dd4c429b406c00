use crate::literal::{Assignment, Entry, Lit, Literal};
use crate::qbf::Clause;
use crate::rules::QRATRule;
use vstd::prelude::*;
use vstd::string::StringExecFns;

verus! {

/// The character of a decimal digit.
pub open spec fn digit_char(d: nat) -> char {
    ((d % 10) + 48) as char
}

/// The decimal numeral of `n`, without leading zeros.
pub open spec fn decimal(n: nat) -> Seq<char>
    decreases n,
{
    if n < 10 {
        seq![digit_char(n)]
    } else {
        decimal(n / 10).push(digit_char(n % 10))
    }
}

/// An integer in decimal, with `-` when negative.
pub open spec fn int_text(x: int) -> Seq<char> {
    if x < 0 {
        seq!['-'] + decimal((-x) as nat)
    } else {
        decimal(x as nat)
    }
}

/// A literal as a signed integer, its annotation left out.
pub open spec fn signed_text(l: Lit) -> Seq<char> {
    if l.positive {
        decimal(l.variable as nat)
    } else {
        seq!['-'] + decimal(l.variable as nat)
    }
}

/// The literals of a clause in order, each followed by a space.
pub open spec fn clause_text(c: Seq<Lit>) -> Seq<char>
    decreases c.len(),
{
    if c.len() == 0 {
        Seq::empty()
    } else {
        clause_text(c.drop_last()) + signed_text(c.last()) + seq![' ']
    }
}

/// The line of a QRAT step.
pub open spec fn rule_text(r: QRATRule) -> Seq<char> {
    match r {
        QRATRule::AddVariable(a, b) => seq!['a', ' '] + decimal(a as nat) + seq![' '] + decimal(
            b as nat,
        ) + seq![' ', '0', '\n'],
        QRATRule::AddClause(c) => clause_text(c@) + seq!['0', '\n'],
        QRATRule::RemoveClause(c) => seq!['d', ' '] + clause_text(c@) + seq!['0', '\n'],
        QRATRule::RemoveLiteral(c, l) => seq!['u', ' '] + int_text(l as int) + seq![' ']
            + clause_text(c@) + seq!['0', '\n'],
    }
}

/// Appends one decimal digit.
fn append_digit(s: &mut String, d: usize)
    requires
        d < 10,
    ensures
        final(s)@ == old(s)@.push(digit_char(d as nat)),
{
    let t = match d {
        0 => "0",
        1 => "1",
        2 => "2",
        3 => "3",
        4 => "4",
        5 => "5",
        6 => "6",
        7 => "7",
        8 => "8",
        _ => "9",
    };
    proof {
        reveal_strlit("0");
        reveal_strlit("1");
        reveal_strlit("2");
        reveal_strlit("3");
        reveal_strlit("4");
        reveal_strlit("5");
        reveal_strlit("6");
        reveal_strlit("7");
        reveal_strlit("8");
        reveal_strlit("9");
    }
    s.append(t);
    assert(final(s)@ =~= old(s)@.push(digit_char(d as nat)));
}

/// Appends `n` in decimal.
pub fn append_decimal(s: &mut String, n: usize)
    ensures
        final(s)@ == old(s)@ + decimal(n as nat),
    decreases n,
{
    if n < 10 {
        append_digit(s, n);
        assert(final(s)@ =~= old(s)@ + decimal(n as nat));
    } else {
        append_decimal(s, n / 10);
        append_digit(s, n % 10);
        assert(final(s)@ =~= old(s)@ + decimal(n as nat));
    }
}

/// Appends the literals of `c` in order, each as a signed integer followed
/// by a space.
pub fn append_clause(s: &mut String, c: &Clause)
    ensures
        final(s)@ == old(s)@ + clause_text(c@),
{
    let mut i: usize = 0;
    assert(c@.take(0) =~= Seq::<Lit>::empty());
    assert(old(s)@ + clause_text(c@.take(0)) =~= old(s)@);
    while i < c.len()
        invariant
            i <= c@.len(),
            s@ == old(s)@ + clause_text(c@.take(i as int)),
        decreases c@.len() - i,
    {
        let l = c.literal(i);
        if !l.positive {
            proof {
                reveal_strlit("-");
            }
            s.append("-");
        }
        append_decimal(s, l.variable);
        proof {
            reveal_strlit(" ");
        }
        s.append(" ");
        assert(c@.take(i + 1).drop_last() =~= c@.take(i as int));
        assert(s@ =~= old(s)@ + clause_text(c@.take(i + 1)));
        i = i + 1;
    }
    assert(c@.take(i as int) =~= c@);
}

impl QRATRule {
    /// The line of this step in a QRAT proof file, with its line feed.
    pub fn to_line(&self) -> (r: String)
        ensures
            r@ == rule_text(*self),
    {
        let mut s = String::new();
        proof {
            reveal_strlit("a ");
            reveal_strlit(" ");
            reveal_strlit(" 0\n");
            reveal_strlit("0\n");
            reveal_strlit("d ");
            reveal_strlit("u ");
            reveal_strlit("-");
        }
        match self {
            QRATRule::AddVariable(a, b) => {
                s.append("a ");
                append_decimal(&mut s, *a);
                s.append(" ");
                append_decimal(&mut s, *b);
                s.append(" 0\n");
            },
            QRATRule::AddClause(c) => {
                append_clause(&mut s, c);
                s.append("0\n");
            },
            QRATRule::RemoveClause(c) => {
                s.append("d ");
                append_clause(&mut s, c);
                s.append("0\n");
            },
            QRATRule::RemoveLiteral(c, l) => {
                s.append("u ");
                if *l < 0 {
                    s.append("-");
                    append_decimal(&mut s, (-(*l + 1)) as usize + 1);
                } else {
                    append_decimal(&mut s, *l as usize);
                }
                s.append(" ");
                append_clause(&mut s, c);
                s.append("0\n");
            },
        }
        assert(s@ =~= rule_text(*self));
        s
    }
}

/// The escape sequence that ansi_term writes around text painted in the
/// 24-bit colour `(r, g, b)`.
pub open spec fn painted(r: u8, g: u8, b: u8, t: Seq<char>) -> Seq<char> {
    seq!['\u{1b}', '[', '3', '8', ';', '2', ';'] + decimal(r as nat) + seq![';'] + decimal(
        g as nat,
    ) + seq![';'] + decimal(b as nat) + seq!['m'] + t + seq!['\u{1b}', '[', '0', 'm']
}

/// Relies on ansi_term's `Colour::RGB(r, g, b).paint(text)` and its `Display`:
/// the text between the foreground prefix `ESC[38;2;r;g;bm` and the reset `ESC[0m`.
#[verifier::external_body]
fn paint_rgb(r: u8, g: u8, b: u8, text: &str) -> (res: String)
    ensures
        res@ == painted(r, g, b, text@),
{
    ansi_term::Colour::RGB(r, g, b).paint(text).to_string()
}

/// The grey in which annotations are shown.
pub const ANNOTATION_GREY: u8 = 100;

/// The entries of an annotation, `¬k` for a `false` value and `k` for a
/// `true` one, separated by commas.
pub open spec fn annotation_text(a: Seq<Entry>) -> Seq<char>
    decreases a.len(),
{
    if a.len() == 0 {
        Seq::empty()
    } else {
        let prev = annotation_text(a.drop_last());
        let sep = if a.len() > 1 {
            seq![',']
        } else {
            Seq::empty()
        };
        let neg = if a.last().1 {
            Seq::empty()
        } else {
            seq!['¬']
        };
        prev + sep + neg + decimal(a.last().0 as nat)
    }
}

/// A literal for reading: `¬` when negative, the variable, and the
/// annotation in grey brackets when there is one.
pub open spec fn literal_text(l: Lit) -> Seq<char> {
    let neg = if l.positive {
        Seq::empty()
    } else {
        seq!['¬']
    };
    if l.annotation.len() == 0 {
        neg + decimal(l.variable as nat)
    } else {
        neg + decimal(l.variable as nat) + seq!['['] + painted(
            ANNOTATION_GREY,
            ANNOTATION_GREY,
            ANNOTATION_GREY,
            annotation_text(l.annotation),
        ) + seq![']']
    }
}

impl Assignment {
    /// The entries, `¬k` for `false` and `k` for `true`, separated by commas.
    pub fn to_text(&self) -> (r: String)
        ensures
            r@ == annotation_text(self@),
    {
        let mut s = String::new();
        let mut i: usize = 0;
        assert(self@.take(0) =~= Seq::<Entry>::empty());
        assert(s@ =~= annotation_text(self@.take(0)));
        while i < self.0.len()
            invariant
                i <= self@.len(),
                s@ == annotation_text(self@.take(i as int)),
            decreases self@.len() - i,
        {
            proof {
                reveal_strlit(",");
                reveal_strlit("¬");
            }
            if i > 0 {
                s.append(",");
            }
            let (key, val) = self.0[i];
            if !val {
                s.append("¬");
            }
            append_decimal(&mut s, key);
            assert(self@.take(i + 1).drop_last() =~= self@.take(i as int));
            assert(s@ =~= annotation_text(self@.take(i + 1)));
            i = i + 1;
        }
        assert(self@.take(i as int) =~= self@);
        s
    }
}

impl Literal {
    /// The literal for reading; see `literal_text`.
    pub fn to_text(&self) -> (r: String)
        ensures
            r@ == literal_text(self@),
    {
        let mut s = String::new();
        proof {
            reveal_strlit("¬");
            reveal_strlit("[");
            reveal_strlit("]");
        }
        if !self.positive {
            s.append("¬");
        }
        append_decimal(&mut s, self.variable);
        if !self.assignment.is_empty() {
            let inner = self.assignment.to_text();
            let p = paint_rgb(ANNOTATION_GREY, ANNOTATION_GREY, ANNOTATION_GREY, inner.as_str());
            s.append("[");
            s.append(p.as_str());
            s.append("]");
        }
        assert(s@ =~= literal_text(self@));
        s
    }
}

/// The literals of a clause for reading, each followed by a space.
pub open spec fn clause_display(c: Seq<Lit>) -> Seq<char>
    decreases c.len(),
{
    if c.len() == 0 {
        Seq::empty()
    } else {
        clause_display(c.drop_last()) + literal_text(c.last()) + seq![' ']
    }
}

impl Clause {
    /// The clause for reading; see `clause_display`.
    pub fn to_text(&self) -> (r: String)
        ensures
            r@ == clause_display(self@),
    {
        let mut s = String::new();
        let mut i: usize = 0;
        assert(self@.take(0) =~= Seq::<Lit>::empty());
        assert(s@ =~= clause_display(self@.take(0)));
        while i < self.len()
            invariant
                i <= self@.len(),
                s@ == clause_display(self@.take(i as int)),
            decreases self@.len() - i,
        {
            let t = self.literal(i).to_text();
            s.append(t.as_str());
            proof {
                reveal_strlit(" ");
            }
            s.append(" ");
            assert(self@.take(i + 1).drop_last() =~= self@.take(i as int));
            assert(s@ =~= clause_display(self@.take(i + 1)));
            i = i + 1;
        }
        assert(self@.take(i as int) =~= self@);
        s
    }
}

} // verus!
