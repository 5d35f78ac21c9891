//! The textual notation and its parser.
//!
//! ```text
//! definition := "$" term ("&" term "~" term)*
//! term       := "*" | "(" label term term ")" | "{" op term term "}"
//!             | "@" name | sign digits | digits | variable
//! ```
//!
//! Blanks may stand before every token. A label is a decimal number: zero
//! makes a constructor, any other value a duplicator of that color. A name
//! is made of up to ten letters, digits, dots and underscores; a variable is
//! a name that starts with a letter or an underscore. Digits with a sign are
//! a numeral; digits without one are a literal that stands for a chain of
//! digit definitions.

use vstd::prelude::*;
use vstd::string::StringSliceAdditionalSpecFns;
use crate::error::Error;
use crate::rules::{
    OP_ADD, OP_AND, OP_DIV, OP_EQ, OP_GT, OP_LT, OP_MUL, OP_OR, OP_REM, OP_SUB, OP_XOR,
};

verus! {

/// A term of the notation.
#[derive(Debug, PartialEq, Eq)]
pub enum Term {
    /// `*`
    Era,
    /// A variable, by the number of its name.
    Var(u64),
    /// `@name`, by the number of the name.
    Ref(u64),
    /// A signed numeral, in two's complement.
    Num(u64),
    /// An unsigned literal.
    Lit(u64),
    /// `(label left right)`
    Ctr(u32, Box<Term>, Box<Term>),
    /// `{op left right}`
    Opr(u32, Box<Term>, Box<Term>),
}

/// A definition: its root term and its active pairs.
#[derive(Debug, PartialEq, Eq)]
pub struct Def {
    pub root: Term,
    pub pairs: Vec<(Term, Term)>,
}

/// The mathematical model of a definition.
pub struct DefState {
    pub root: Term,
    pub pairs: Seq<(Term, Term)>,
}

impl View for Def {
    type V = DefState;

    open spec fn view(&self) -> DefState {
        DefState { root: self.root, pairs: self.pairs@ }
    }
}

/// The deepest nesting of brackets that the parser follows.
pub const MAX_DEPTH: usize = 1024;

/// The most letters a name can have.
pub const MAX_NAME: usize = 10;

/// Whether `c` is a blank.
pub open spec fn is_space(c: u8) -> bool {
    c == 32 || c == 9 || c == 10 || c == 13
}

/// Whether `c` is a decimal digit.
pub open spec fn is_digit(c: u8) -> bool {
    48 <= c <= 57
}

/// The value of `c` as a letter of a name: the dot is 0, the digits are 1
/// to 10, the capitals 11 to 36, the small letters 37 to 62, the underscore
/// is 63.
pub open spec fn letter(c: u8) -> Option<u64> {
    if c == 46 {
        Some(0)
    } else if 48 <= c <= 57 {
        Some((c - 48 + 1) as u64)
    } else if 65 <= c <= 90 {
        Some((c - 65 + 11) as u64)
    } else if 97 <= c <= 122 {
        Some((c - 97 + 37) as u64)
    } else if c == 95 {
        Some(63)
    } else {
        None
    }
}

/// Whether a variable can start with `c`.
pub open spec fn starts_variable(c: u8) -> bool {
    65 <= c <= 90 || 97 <= c <= 122 || c == 95
}

/// The opcode that the symbol `c` stands for.
pub open spec fn opcode(c: u8) -> Option<u32> {
    if c == 43 {
        Some(OP_ADD)
    } else if c == 45 {
        Some(OP_SUB)
    } else if c == 42 {
        Some(OP_MUL)
    } else if c == 47 {
        Some(OP_DIV)
    } else if c == 37 {
        Some(OP_REM)
    } else if c == 38 {
        Some(OP_AND)
    } else if c == 124 {
        Some(OP_OR)
    } else if c == 94 {
        Some(OP_XOR)
    } else if c == 61 {
        Some(OP_EQ)
    } else if c == 60 {
        Some(OP_LT)
    } else if c == 62 {
        Some(OP_GT)
    } else {
        None
    }
}

/// The first position from `pos` on that holds no blank.
pub open spec fn skip_space(s: Seq<u8>, pos: nat) -> nat
    decreases s.len() - pos,
{
    if pos < s.len() && is_space(s[pos as int]) {
        skip_space(s, pos + 1)
    } else {
        pos
    }
}

/// The number of the name that starts at `pos`, after `count` letters that
/// gave `acc`, and the position behind it. `None` if the name has more than
/// `MAX_NAME` letters.
pub open spec fn scan_name(s: Seq<u8>, pos: nat, acc: u64, count: nat) -> Option<(u64, nat)>
    decreases s.len() - pos,
{
    if pos < s.len() && letter(s[pos as int]) is Some {
        if count >= MAX_NAME {
            None
        } else {
            scan_name(s, pos + 1, (acc * 64 + letter(s[pos as int]).unwrap()) as u64, count + 1)
        }
    } else {
        Some((acc, pos))
    }
}

/// The value of the decimal digits that start at `pos`, after digits that
/// gave `acc`, and the position behind them. `None` if the value does not
/// fit into 64 bits.
pub open spec fn scan_number(s: Seq<u8>, pos: nat, acc: u64) -> Option<(u64, nat)>
    decreases s.len() - pos,
{
    if pos < s.len() && is_digit(s[pos as int]) {
        if acc * 10 + (s[pos as int] - 48) > u64::MAX {
            None
        } else {
            scan_number(s, pos + 1, (acc * 10 + (s[pos as int] - 48)) as u64)
        }
    } else {
        Some((acc, pos))
    }
}

/// The number that stands for `-n` in two's complement.
pub open spec fn negated(n: u64) -> u64 {
    if n == 0 {
        0
    } else {
        (0x1_0000_0000_0000_0000 - n) as u64
    }
}

/// A syntax error at `pos`.
pub open spec fn bad<T>(pos: nat) -> Result<T, Error> {
    Err(Error::Syntax(pos as usize))
}

/// The term that starts at or after `pos`, and the position behind it.
/// Brackets are followed `fuel` levels deep.
pub open spec fn parse_term(s: Seq<u8>, pos: nat, fuel: nat) -> Result<(Term, nat), Error>
    decreases fuel, 0nat,
{
    let p = skip_space(s, pos);
    if p >= s.len() {
        bad(p)
    } else {
        let c = s[p as int];
        if c == 42 {
            Ok((Term::Era, p + 1))
        } else if c == 40 {
            let q = skip_space(s, p + 1);
            if fuel == 0 {
                bad(p)
            } else if !(q < s.len() && is_digit(s[q as int])) {
                bad(q)
            } else {
                match scan_number(s, q, 0) {
                    None => bad(q),
                    Some((lab, q1)) => if lab > u32::MAX {
                        bad(q)
                    } else {
                        parse_children(s, q1, (fuel - 1) as nat, 41, true, lab as u32)
                    },
                }
            }
        } else if c == 123 {
            let q = skip_space(s, p + 1);
            if fuel == 0 {
                bad(p)
            } else if !(q < s.len() && opcode(s[q as int]) is Some) {
                bad(q)
            } else {
                parse_children(s, q + 1, (fuel - 1) as nat, 125, false, opcode(s[q as int]).unwrap())
            }
        } else if c == 64 {
            match scan_name(s, p + 1, 0, 0) {
                None => bad(p + 1),
                Some((v, q)) => if q == p + 1 {
                    bad(q)
                } else {
                    Ok((Term::Ref(v), q))
                },
            }
        } else if c == 43 || c == 45 {
            match scan_number(s, p + 1, 0) {
                None => bad(p + 1),
                Some((n, q)) => if q == p + 1 {
                    bad(q)
                } else if c == 45 {
                    Ok((Term::Num(negated(n)), q))
                } else {
                    Ok((Term::Num(n), q))
                },
            }
        } else if is_digit(c) {
            match scan_number(s, p, 0) {
                None => bad(p),
                Some((n, q)) => Ok((Term::Lit(n), q)),
            }
        } else if starts_variable(c) {
            match scan_name(s, p, 0, 0) {
                None => bad(p),
                Some((v, q)) => Ok((Term::Var(v), q)),
            }
        } else {
            bad(p)
        }
    }
}

/// Two terms from `pos` on and the closing bracket `close`, made into a
/// labelled node (`labelled`) or an operator node.
pub open spec fn parse_children(
    s: Seq<u8>,
    pos: nat,
    fuel: nat,
    close: u8,
    labelled: bool,
    lab: u32,
) -> Result<(Term, nat), Error>
    decreases fuel, 1nat,
{
    match parse_term(s, pos, fuel) {
        Err(e) => Err(e),
        Ok((l, q1)) => match parse_term(s, q1, fuel) {
            Err(e) => Err(e),
            Ok((r, q2)) => {
                let q3 = skip_space(s, q2);
                if q3 < s.len() && s[q3 as int] == close {
                    if labelled {
                        Ok((Term::Ctr(lab, Box::new(l), Box::new(r)), q3 + 1))
                    } else {
                        Ok((Term::Opr(lab, Box::new(l), Box::new(r)), q3 + 1))
                    }
                } else {
                    bad(q3)
                }
            },
        },
    }
}

/// The pairs that follow the root term, from `pos` on, behind those in
/// `acc`. Neither side of a pair may be a variable: a variable has no
/// principal port.
pub open spec fn parse_pairs(s: Seq<u8>, pos: nat, acc: Seq<(Term, Term)>) -> Result<
    Seq<(Term, Term)>,
    Error,
>
    decreases s.len() - pos,
{
    let p = skip_space(s, pos);
    if p >= s.len() {
        Ok(acc)
    } else if s[p as int] != 38 {
        bad(p)
    } else {
        match parse_term(s, p + 1, MAX_DEPTH as nat) {
            Err(e) => Err(e),
            Ok((a, q1)) => {
                let q2 = skip_space(s, q1);
                if !(q2 < s.len() && s[q2 as int] == 126) {
                    bad(q2)
                } else {
                    match parse_term(s, q2 + 1, MAX_DEPTH as nat) {
                        Err(e) => Err(e),
                        Ok((b, q3)) => if a is Var {
                            bad(p + 1)
                        } else if b is Var {
                            bad(q2 + 1)
                        } else if pos < q3 <= s.len() {
                            parse_pairs(s, q3, acc.push((a, b)))
                        } else {
                            bad(q3)
                        },
                    }
                }
            },
        }
    }
}

/// The definition that the text `s` denotes.
pub open spec fn parse_def(s: Seq<u8>) -> Result<DefState, Error> {
    let p = skip_space(s, 0);
    if !(p < s.len() && s[p as int] == 36) {
        bad(p)
    } else {
        match parse_term(s, p + 1, MAX_DEPTH as nat) {
            Err(e) => Err(e),
            Ok((root, q)) => match parse_pairs(s, q, Seq::empty()) {
                Err(e) => Err(e),
                Ok(pairs) => Ok(DefState { root, pairs }),
            },
        }
    }
}

/// The number of the name `s`, if `s` is a name: one to `MAX_NAME` letters
/// and nothing else.
pub open spec fn name_value(s: Seq<u8>) -> Option<u64> {
    match scan_name(s, 0, 0, 0) {
        Some((v, end)) => if end == s.len() && end > 0 {
            Some(v)
        } else {
            None
        },
        None => None,
    }
}

/// Sixty-four to the power `k`.
pub open spec fn pow64(k: nat) -> nat
    decreases k,
{
    if k == 0 {
        1
    } else {
        64 * pow64((k - 1) as nat)
    }
}

/// Ten letters fit into sixty bits.
pub proof fn lemma_pow64(k: nat)
    requires
        k <= 10,
    ensures
        0 < pow64(k) <= 0x1000_0000_0000_0000,
{
    reveal_with_fuel(pow64, 12);
}

/// A name ends at or behind the place where it is looked for.
pub proof fn lemma_scan_name_end(s: Seq<u8>, pos: nat, acc: u64, count: nat)
    ensures
        scan_name(s, pos, acc, count) is Some ==> scan_name(s, pos, acc, count).unwrap().1 >= pos,
    decreases s.len() - pos,
{
    if pos < s.len() && letter(s[pos as int]) is Some && count < MAX_NAME {
        lemma_scan_name_end(
            s,
            pos + 1,
            (acc * 64 + letter(s[pos as int]).unwrap()) as u64,
            count + 1,
        );
    }
}

/// A number ends at or behind the place where it is looked for.
pub proof fn lemma_scan_number_end(s: Seq<u8>, pos: nat, acc: u64)
    ensures
        scan_number(s, pos, acc) is Some ==> scan_number(s, pos, acc).unwrap().1 >= pos,
    decreases s.len() - pos,
{
    if pos < s.len() && is_digit(s[pos as int]) && acc * 10 + (s[pos as int] - 48) <= u64::MAX {
        lemma_scan_number_end(s, pos + 1, (acc * 10 + (s[pos as int] - 48)) as u64);
    }
}

/// Whether the parser's result `r` is what the grammar prescribes.
pub open spec fn agree(r: Result<(Term, usize), Error>, m: Result<(Term, nat), Error>) -> bool {
    match m {
        Ok((t, q)) => r is Ok && r.unwrap().0 == t && r.unwrap().1 == q,
        Err(e) => r == Err::<(Term, usize), Error>(e),
    }
}

fn space(c: u8) -> (b: bool)
    ensures
        b == is_space(c),
{
    c == 32 || c == 9 || c == 10 || c == 13
}

fn letter_of(c: u8) -> (v: Option<u64>)
    ensures
        v == letter(c),
{
    if c == 46 {
        Some(0)
    } else if 48 <= c && c <= 57 {
        Some((c - 48 + 1) as u64)
    } else if 65 <= c && c <= 90 {
        Some((c - 65 + 11) as u64)
    } else if 97 <= c && c <= 122 {
        Some((c - 97 + 37) as u64)
    } else if c == 95 {
        Some(63)
    } else {
        None
    }
}

fn opcode_of(c: u8) -> (v: Option<u32>)
    ensures
        v == opcode(c),
{
    if c == 43 {
        Some(OP_ADD)
    } else if c == 45 {
        Some(OP_SUB)
    } else if c == 42 {
        Some(OP_MUL)
    } else if c == 47 {
        Some(OP_DIV)
    } else if c == 37 {
        Some(OP_REM)
    } else if c == 38 {
        Some(OP_AND)
    } else if c == 124 {
        Some(OP_OR)
    } else if c == 94 {
        Some(OP_XOR)
    } else if c == 61 {
        Some(OP_EQ)
    } else if c == 60 {
        Some(OP_LT)
    } else if c == 62 {
        Some(OP_GT)
    } else {
        None
    }
}

fn skip(src: &[u8], pos: usize) -> (p: usize)
    requires
        pos <= src@.len(),
    ensures
        p == skip_space(src@, pos as nat),
        pos <= p <= src@.len(),
{
    let mut p = pos;
    while p < src.len() && space(src[p])
        invariant
            pos <= p <= src@.len(),
            skip_space(src@, p as nat) == skip_space(src@, pos as nat),
        decreases src@.len() - p,
    {
        p += 1;
    }
    p
}

fn read_name(src: &[u8], pos: usize) -> (r: Option<(u64, usize)>)
    requires
        pos <= src@.len(),
    ensures
        match scan_name(src@, pos as nat, 0, 0) {
            Some((v, q)) => r == Some((v, q as usize)) && pos <= q <= src@.len(),
            None => r is None,
        },
{
    let mut p = pos;
    let mut acc: u64 = 0;
    let mut count: usize = 0;
    while p < src.len()
        invariant
            pos <= p <= src@.len(),
            count <= MAX_NAME,
            acc < pow64(count as nat),
            scan_name(src@, p as nat, acc, count as nat) == scan_name(src@, pos as nat, 0, 0),
        decreases src@.len() - p,
    {
        match letter_of(src[p]) {
            None => {
                return Some((acc, p));
            },
            Some(l) => {
                if count >= MAX_NAME {
                    return None;
                }
                proof {
                    lemma_pow64(count as nat);
                    lemma_pow64((count + 1) as nat);
                }
                acc = acc * 64 + l;
                count += 1;
                p += 1;
            },
        }
    }
    Some((acc, p))
}

fn read_number(src: &[u8], pos: usize) -> (r: Option<(u64, usize)>)
    requires
        pos <= src@.len(),
    ensures
        match scan_number(src@, pos as nat, 0) {
            Some((v, q)) => r == Some((v, q as usize)) && pos <= q <= src@.len(),
            None => r is None,
        },
{
    let mut p = pos;
    let mut acc: u64 = 0;
    while p < src.len() && 48 <= src[p] && src[p] <= 57
        invariant
            pos <= p <= src@.len(),
            scan_number(src@, p as nat, acc) == scan_number(src@, pos as nat, 0),
        decreases src@.len() - p,
    {
        let d = (src[p] - 48) as u64;
        if acc > (u64::MAX - d) / 10 {
            return None;
        }
        acc = acc * 10 + d;
        p += 1;
    }
    Some((acc, p))
}

fn negate(n: u64) -> (m: u64)
    ensures
        m == negated(n),
{
    if n == 0 {
        0
    } else {
        u64::MAX - n + 1
    }
}

#[verifier::rlimit(40)]

fn read_term(src: &[u8], pos: usize, fuel: usize) -> (r: Result<(Term, usize), Error>)
    requires
        pos <= src@.len(),
    ensures
        agree(r, parse_term(src@, pos as nat, fuel as nat)),
        r is Ok ==> pos < r.unwrap().1 <= src@.len(),
    decreases fuel, 0nat,
{
    let p = skip(src, pos);
    if p >= src.len() {
        return Err(Error::Syntax(p));
    }
    let c = src[p];
    if c == 42 {
        Ok((Term::Era, p + 1))
    } else if c == 40 {
        let q = skip(src, p + 1);
        if fuel == 0 {
            return Err(Error::Syntax(p));
        }
        if !(q < src.len() && 48 <= src[q] && src[q] <= 57) {
            return Err(Error::Syntax(q));
        }
        match read_number(src, q) {
            None => Err(Error::Syntax(q)),
            Some((lab, q1)) => {
                if lab > u32::MAX as u64 {
                    return Err(Error::Syntax(q));
                }
                read_children(src, q1, fuel - 1, 41, true, lab as u32)
            },
        }
    } else if c == 123 {
        let q = skip(src, p + 1);
        if fuel == 0 {
            return Err(Error::Syntax(p));
        }
        if q >= src.len() {
            return Err(Error::Syntax(q));
        }
        match opcode_of(src[q]) {
            None => Err(Error::Syntax(q)),
            Some(op) => read_children(src, q + 1, fuel - 1, 125, false, op),
        }
    } else if c == 64 {
        match read_name(src, p + 1) {
            None => Err(Error::Syntax(p + 1)),
            Some((v, q)) => {
                if q == p + 1 {
                    Err(Error::Syntax(q))
                } else {
                    Ok((Term::Ref(v), q))
                }
            },
        }
    } else if c == 43 || c == 45 {
        match read_number(src, p + 1) {
            None => Err(Error::Syntax(p + 1)),
            Some((n, q)) => {
                if q == p + 1 {
                    Err(Error::Syntax(q))
                } else if c == 45 {
                    Ok((Term::Num(negate(n)), q))
                } else {
                    Ok((Term::Num(n), q))
                }
            },
        }
    } else if 48 <= c && c <= 57 {
        match read_number(src, p) {
            None => Err(Error::Syntax(p)),
            Some((n, q)) => {
                proof {
                    lemma_scan_number_end(src@, (p + 1) as nat, (c - 48) as u64);
                }
                Ok((Term::Lit(n), q))
            },
        }
    } else if (65 <= c && c <= 90) || (97 <= c && c <= 122) || c == 95 {
        match read_name(src, p) {
            None => Err(Error::Syntax(p)),
            Some((v, q)) => {
                proof {
                    lemma_scan_name_end(src@, (p + 1) as nat, letter(c).unwrap(), 1);
                }
                Ok((Term::Var(v), q))
            },
        }
    } else {
        Err(Error::Syntax(p))
    }
}

#[verifier::rlimit(40)]

fn read_children(src: &[u8], pos: usize, fuel: usize, close: u8, labelled: bool, lab: u32) -> (r:
    Result<(Term, usize), Error>)
    requires
        pos <= src@.len(),
    ensures
        agree(r, parse_children(src@, pos as nat, fuel as nat, close, labelled, lab)),
        r is Ok ==> pos < r.unwrap().1 <= src@.len(),
    decreases fuel, 1nat,
{
    let (l, q1) = read_term(src, pos, fuel)?;
    let (r, q2) = read_term(src, q1, fuel)?;
    let q3 = skip(src, q2);
    if q3 < src.len() && src[q3] == close {
        if labelled {
            Ok((Term::Ctr(lab, Box::new(l), Box::new(r)), q3 + 1))
        } else {
            Ok((Term::Opr(lab, Box::new(l), Box::new(r)), q3 + 1))
        }
    } else {
        Err(Error::Syntax(q3))
    }
}

/// Whether the term is a bare variable.
pub fn is_variable(t: &Term) -> (b: bool)
    ensures
        b == (*t is Var),
{
    match t {
        Term::Var(_) => true,
        _ => false,
    }
}

/// Parses the text of one definition.
#[verifier::rlimit(40)]
pub fn parse(src: &str) -> (r: Result<Def, Error>)
    ensures
        match parse_def(src.spec_bytes()) {
            Ok(d) => r is Ok && r.unwrap()@ == d,
            Err(e) => r == Err::<Def, Error>(e),
        },
{
    let bytes = src.as_bytes();
    let p = skip(bytes, 0);
    if !(p < bytes.len() && bytes[p] == 36) {
        return Err(Error::Syntax(p));
    }
    let (root, q) = read_term(bytes, p + 1, MAX_DEPTH)?;
    let mut pairs: Vec<(Term, Term)> = Vec::new();
    let mut pos = q;
    let ghost goal = parse_pairs(bytes@, q as nat, Seq::empty());
    loop
        invariant
            pos <= bytes@.len(),
            bytes@ == src.spec_bytes(),
            parse_pairs(bytes@, pos as nat, pairs@) == goal,
            parse_def(bytes@) == (match goal {
                Err(e) => Err::<DefState, Error>(e),
                Ok(pairs) => Ok(DefState { root, pairs }),
            }),
        decreases bytes@.len() - pos,
    {
        let p = skip(bytes, pos);
        if p >= bytes.len() {
            return Ok(Def { root, pairs });
        }
        if bytes[p] != 38 {
            return Err(Error::Syntax(p));
        }
        let (a, q1) = read_term(bytes, p + 1, MAX_DEPTH)?;
        let q2 = skip(bytes, q1);
        if !(q2 < bytes.len() && bytes[q2] == 126) {
            return Err(Error::Syntax(q2));
        }
        let (b, q3) = read_term(bytes, q2 + 1, MAX_DEPTH)?;
        if is_variable(&a) {
            return Err(Error::Syntax(p + 1));
        }
        if is_variable(&b) {
            return Err(Error::Syntax(q2 + 1));
        }
        pairs.push((a, b));
        pos = q3;
    }
}

/// The number that stands for the name `name`, or `None` if `name` is not
/// made of one to `MAX_NAME` letters, digits, dots and underscores.
pub fn name_to_val(name: &str) -> (v: Option<u64>)
    ensures
        v == name_value(name.spec_bytes()),
{
    let bytes = name.as_bytes();
    match read_name(bytes, 0) {
        None => None,
        Some((v, end)) => {
            if end == bytes.len() && end > 0 {
                Some(v)
            } else {
                None
            }
        },
    }
}

/// The character that stands for the letter value `d`.
pub open spec fn symbol(d: u64) -> u8 {
    if d == 0 {
        46
    } else if d <= 10 {
        (48 + d - 1) as u8
    } else if d <= 36 {
        (65 + d - 11) as u8
    } else if d <= 62 {
        (97 + d - 37) as u8
    } else {
        95
    }
}

/// The shortest text whose number is `v`: its digits in base 64, the most
/// significant one first, each written as a letter.
pub open spec fn name_text(v: u64) -> Seq<u8>
    decreases v,
{
    if v < 64 {
        seq![symbol(v)]
    } else {
        name_text(v / 64).push(symbol(v % 64))
    }
}

fn symbol_of(d: u64) -> (c: u8)
    requires
        d < 64,
    ensures
        c == symbol(d),
        letter(c) == Some(d),
{
    if d == 0 {
        46
    } else if d <= 10 {
        (48 + d - 1) as u8
    } else if d <= 36 {
        (65 + d - 11) as u8
    } else if d <= 62 {
        (97 + d - 37) as u8
    } else {
        95
    }
}

/// The text of the name whose number is `v`.
pub fn val_to_name(v: u64) -> (r: Vec<u8>)
    ensures
        r@ == name_text(v),
    decreases v,
{
    if v < 64 {
        let mut r: Vec<u8> = Vec::new();
        r.push(symbol_of(v));
        assert(r@ =~= name_text(v));
        r
    } else {
        let mut r = val_to_name(v / 64);
        r.push(symbol_of(v % 64));
        r
    }
}

/// The letter value of the character that stands for `d` is `d`.
pub proof fn lemma_symbol(d: u64)
    requires
        d < 64,
    ensures
        letter(symbol(d)) == Some(d),
{
}

/// A name that is scanned to its end is scanned likewise with one more
/// letter behind it, which adds one more digit to its number.
pub proof fn lemma_scan_push(s: Seq<u8>, c: u8, pos: nat, acc: u64, count: nat)
    requires
        pos <= s.len(),
        forall|i: int| pos <= i < s.len() ==> letter(#[trigger] s[i]) is Some,
        letter(c) is Some,
        count + (s.len() - pos) < MAX_NAME,
        scan_name(s, pos, acc, count) is Some,
        scan_name(s, pos, acc, count).unwrap().0 * 64 + letter(c).unwrap() <= u64::MAX,
    ensures
        scan_name(s, pos, acc, count).unwrap().1 == s.len(),
        scan_name(s.push(c), pos, acc, count) == Some(
            (
                (scan_name(s, pos, acc, count).unwrap().0 * 64 + letter(c).unwrap()) as u64,
                s.len() + 1,
            ),
        ),
    decreases s.len() - pos,
{
    let t = s.push(c);
    if pos < s.len() {
        assert(t[pos as int] == s[pos as int]);
        let next = (acc * 64 + letter(s[pos as int]).unwrap()) as u64;
        lemma_scan_push(s, c, pos + 1, next, count + 1);
    } else {
        assert(t[pos as int] == c);
        reveal_with_fuel(scan_name, 2);
    }
}

/// The number of letters of the shortest name of `v`.
pub open spec fn width(v: u64) -> nat
    decreases v,
{
    if v < 64 {
        1
    } else {
        1 + width(v / 64)
    }
}

/// A number below sixty-four to the `k` has a name of at most `k` letters.
pub proof fn lemma_width(v: u64, k: nat)
    requires
        k >= 1,
        v < pow64(k),
    ensures
        width(v) <= k,
    decreases k,
{
    if v >= 64 {
        assert(pow64(k) == 64 * pow64((k - 1) as nat));
        if k == 1 {
            assert(pow64(0) == 1);
        } else {
            lemma_width(v / 64, (k - 1) as nat);
        }
    }
}

/// Names and numbers correspond: the text written for a number that fits
/// into `MAX_NAME` letters is a name, and its number is that number.
pub proof fn lemma_name_round_trip(v: u64)
    requires
        v < pow64(MAX_NAME as nat),
    ensures
        name_value(name_text(v)) == Some(v),
        name_text(v).len() == width(v),
{
    lemma_width(v, MAX_NAME as nat);
    lemma_name_scan(v);
}

/// The text written for a number of at most `MAX_NAME` letters is made of
/// letters and scans to that number.
pub proof fn lemma_name_scan(v: u64)
    requires
        width(v) <= MAX_NAME,
    ensures
        name_text(v).len() == width(v),
        forall|i: int| 0 <= i < name_text(v).len() ==> letter(#[trigger] name_text(v)[i]) is Some,
        scan_name(name_text(v), 0, 0, 0) == Some((v, name_text(v).len())),
    decreases v,
{
    let t = name_text(v);
    if v < 64 {
        lemma_symbol(v);
        assert(t[0] == symbol(v));
        reveal_with_fuel(scan_name, 3);
    } else {
        let front = name_text(v / 64);
        let c = symbol(v % 64);
        lemma_name_scan(v / 64);
        lemma_symbol(v % 64);
        assert forall|i: int| 0 <= i < t.len() implies letter(#[trigger] t[i]) is Some by {
            if i < front.len() {
                assert(t[i] == front[i]);
            }
        }
        lemma_scan_push(front, c, 0, 0, 0);
    }
}

} // verus!
