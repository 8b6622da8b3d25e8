use vstd::prelude::*;
use crate::text::{chars_of, string_of, str_eq, copy_str, starts_with_char};
use crate::decimal::{parse_i64, parse_usize, int_decimal, parse_i64_str, parse_usize_str, i64_to_string};
use crate::pattern::{pattern_matches, pattern_found};
use crate::statics::{Token, TokenView, views, lemma_views, containers_present, data_type_of};
use crate::statics::{BASE_TOKEN, LIT, UDF, NUMBER_RE_PAT, DECI_RE_PAT, TOKEN_STR_RE_PAT};
use crate::statics::{DT_STR, DT_NUM, DT_BOL, DT_LST};
use crate::preprocess::new_view;
use crate::scopes::{VarScopes, ScopesView, udf_view, udf_token};
use crate::names::NameMap;
use crate::logger::Logger;
use crate::method_bindings::Bindings;

verus! {

/// What the interpreter asks of the world around it: output, input, files, and the
/// arithmetic of decimal (floating-point) numbers. Nothing is assumed of the answers.
pub trait Host {
    /// Writes `text` to the program's output.
    fn write(&mut self, text: &str);

    /// Reads one line of input, with its line end; `None` when reading fails.
    fn read_line(&mut self) -> Option<String>;

    /// The contents of the file `name`; `None` when it cannot be read.
    fn read_file(&mut self, name: &str) -> Option<String>;

    /// `a op b` on decimal numbers (`op` one of `+ - * /`), written as Rust writes an
    /// `f64`; `None` when a text does not read as a number.
    fn decimal(&mut self, op: char, a: &str, b: &str) -> Option<String>;

    /// `a op b` compared as decimal numbers (`op` one of `> < >= <=`); `None` when a
    /// text does not read as a number.
    fn compare(&mut self, op: &str, a: &str, b: &str) -> Option<bool>;

    /// Whether `a` read as a decimal number is greater than zero; `None` when it does
    /// not read as a number.
    fn positive(&mut self, a: &str) -> Option<bool>;

    /// The sum of the texts read as decimal numbers, written as Rust writes an `f64`;
    /// `None` when one does not read as a number.
    fn sum(&mut self, items: &Vec<String>) -> Option<String>;

    /// `a` read as a decimal number and written back as Rust writes an `f64`; `None`
    /// when it does not read as a number.
    fn number(&mut self, a: &str) -> Option<String>;
}

/// What an arithmetic operation on two texts comes to.
pub ghost enum Outcome {
    /// A literal with this text.
    Value(Seq<char>),
    /// The undefined token.
    Fault,
    /// The operation fails (the values do not fit it).
    Fail,
    /// Decimal arithmetic, which the host performs.
    Decimal,
}

/// Whether `v` starts like a number (binary, hexadecimal or decimal).
pub open spec fn is_number_text(v: Seq<char>) -> bool {
    pattern_matches(NUMBER_RE_PAT@, v)
}

/// Whether `v` holds a decimal number with a point.
pub open spec fn is_decimal_text(v: Seq<char>) -> bool {
    pattern_matches(DECI_RE_PAT@, v)
}

/// Whether `v` is a quoted string.
pub open spec fn is_string_text(v: Seq<char>) -> bool {
    pattern_matches(TOKEN_STR_RE_PAT@, v)
}

/// The text between the first and the last character of `v`, where both are one-byte
/// characters and distinct (byte slicing `[1..len-1]` succeeds exactly then).
pub open spec fn quoted_inner(v: Seq<char>) -> Option<Seq<char>> {
    if v.len() >= 2 && (v[0] as u32) < 128 && (v.last() as u32) < 128 {
        Some(v.subrange(1, v.len() - 1))
    } else {
        None
    }
}

/// `s` written `n` times over.
pub open spec fn repeated(s: Seq<char>, n: nat) -> Seq<char>
    decreases n,
{
    if n == 0 {
        Seq::empty()
    } else {
        repeated(s, (n - 1) as nat) + s
    }
}

/// The literal token made from `s`.
pub open spec fn lit_view(s: Seq<char>) -> TokenView {
    new_view(LIT, s, BASE_TOKEN, 0, 0)
}

/// Quotient of integer division rounding toward zero, as Rust's `/` computes it.
pub open spec fn trunc_div(a: int, b: int) -> int {
    let q = (if a >= 0 { a } else { -a }) / (if b >= 0 { b } else { -b });
    if (a >= 0) == (b >= 0) { q } else { -q }
}

/// Remainder of integer division rounding toward zero, as Rust's `%` computes it.
pub open spec fn trunc_rem(a: int, b: int) -> int {
    a - b * trunc_div(a, b)
}

/// Whether `x` fits in an `i64`.
pub open spec fn fits_i64(x: int) -> bool {
    i64::MIN <= x <= i64::MAX
}

/// `a op b` on 64-bit integers; `None` where Rust panics (overflow, division by zero).
pub open spec fn int_combine(op: char, a: i64, b: i64) -> Option<int> {
    let x: Option<int> = if op == '+' {
        Some(a + b)
    } else if op == '-' {
        Some(a - b)
    } else if op == '*' {
        Some(a * b)
    } else if op == '/' {
        if b == 0 { None } else { Some(trunc_div(a as int, b as int)) }
    } else if op == '%' {
        if b == 0 || (a == i64::MIN && b == -1) { None } else { Some(trunc_rem(a as int, b as int)) }
    } else if op == '&' {
        Some((a & b) as int)
    } else if op == '|' {
        Some((a | b) as int)
    } else {
        Some((a ^ b) as int)
    };
    match x {
        Some(v) => if fits_i64(v) { Some(v) } else { None },
        None => None,
    }
}

/// Both texts read as 64-bit integers and combined by `op`.
pub open spec fn int_outcome(op: char, v1: Seq<char>, v2: Seq<char>) -> Outcome {
    match (parse_i64(v1), parse_i64(v2)) {
        (Some(a), Some(b)) => match int_combine(op, a, b) {
            Some(x) => Outcome::Value(int_decimal(x)),
            None => Outcome::Fail,
        },
        _ => Outcome::Fail,
    }
}

/// Whether `v` is a number written without a point.
pub open spec fn whole_number_text(v: Seq<char>) -> bool {
    is_number_text(v) && !v.contains('.')
}

/// What `v1 op v2` comes to for the arithmetic operators `+ - * / & | % ^`.
pub open spec fn arith_outcome(op: char, v1: Seq<char>, v2: Seq<char>) -> Outcome {
    if op == '+' || op == '*' {
        if is_number_text(v1) {
            if !is_number_text(v2) {
                Outcome::Fail
            } else if is_decimal_text(v1) || is_decimal_text(v2) {
                Outcome::Decimal
            } else {
                int_outcome(op, v1, v2)
            }
        } else if is_string_text(v1) {
            if op == '+' {
                if !is_string_text(v2) {
                    Outcome::Fail
                } else {
                    match (quoted_inner(v1), quoted_inner(v2)) {
                        (Some(a), Some(b)) => Outcome::Value(seq!['"'] + a + b + seq!['"']),
                        _ => Outcome::Fail,
                    }
                }
            } else {
                if !is_number_text(v2) {
                    Outcome::Fail
                } else {
                    match (quoted_inner(v1), parse_usize(v2)) {
                        (Some(a), Some(n)) => Outcome::Value(seq!['"'] + repeated(a, n as nat) + seq!['"']),
                        _ => Outcome::Fail,
                    }
                }
            }
        } else {
            Outcome::Fault
        }
    } else if op == '-' || op == '/' {
        if !(is_number_text(v1) && is_number_text(v2)) {
            Outcome::Fault
        } else if is_decimal_text(v1) || is_decimal_text(v2) {
            Outcome::Decimal
        } else {
            int_outcome(op, v1, v2)
        }
    } else {
        if !whole_number_text(v1) || !whole_number_text(v2) {
            Outcome::Fault
        } else {
            int_outcome(op, v1, v2)
        }
    }
}

/// Whether `c` is one of the arithmetic operators `+ - * / & | % ^`.
pub open spec fn is_arith_op(c: char) -> bool {
    c == '+' || c == '-' || c == '*' || c == '/' || c == '&' || c == '|' || c == '%' || c == '^'
}

/// Whether a result token agrees with an outcome (any literal where the host decides).
pub open spec fn agrees(r: Result<Token, String>, o: Outcome) -> bool {
    match o {
        Outcome::Value(s) => r matches Ok(t) && t.view() == lit_view(s),
        Outcome::Fault => r matches Ok(t) && t.view() == udf_view(),
        Outcome::Fail => r is Err,
        Outcome::Decimal => r matches Ok(t) ==> t.id == LIT,
    }
}

/// The literal token made from `s`.
fn lit_token(s: String) -> (r: Token)
    ensures
        r.view() == lit_view(s@),
        containers_present(r),
{
    Token::new(LIT, s, BASE_TOKEN)
}

/// The text between the first and last character of `v` (see `quoted_inner`).
fn quoted_inner_exec(v: &str) -> (r: Option<Vec<char>>)
    ensures
        match quoted_inner(v@) {
            Some(s) => r matches Some(x) && x@ == s,
            None => r is None,
        },
{
    let c = chars_of(v);
    let n = c.len();
    if n >= 2 && (c[0] as u32) < 128 && (c[n - 1] as u32) < 128 {
        let mut out: Vec<char> = Vec::new();
        let mut k: usize = 1;
        while k < n - 1
            invariant
                1 <= k <= n - 1,
                n == c.len(),
                out@ == c@.subrange(1, k as int),
            decreases n - 1 - k,
        {
            out.push(c[k]);
            k += 1;
            assert(out@ =~= c@.subrange(1, k as int));
        }
        Some(out)
    } else {
        None
    }
}

/// `"` then `parts` in turn, then `"`.
fn quoted(parts: &Vec<char>) -> (r: String)
    ensures
        r@ == seq!['"'] + parts@ + seq!['"'],
{
    let mut v: Vec<char> = Vec::new();
    v.push('"');
    let mut k: usize = 0;
    while k < parts.len()
        invariant
            k <= parts.len(),
            v@ == seq!['"'] + parts@.take(k as int),
        decreases parts.len() - k,
    {
        v.push(parts[k]);
        k += 1;
        assert(v@ =~= seq!['"'] + parts@.take(k as int));
    }
    v.push('"');
    assert(parts@.take(parts.len() as int) =~= parts@);
    assert(v@ =~= seq!['"'] + parts@ + seq!['"']);
    string_of(&v)
}

/// Whether `v` holds the character `c`.
fn has_char(v: &str, c: char) -> (r: bool)
    ensures
        r == v@.contains(c),
{
    let s = chars_of(v);
    let mut k: usize = 0;
    while k < s.len()
        invariant
            k <= s.len(),
            s@ == v@,
            forall|j: int| 0 <= j < k ==> s@[j] != c,
        decreases s.len() - k,
    {
        if s[k] == c {
            return true;
        }
        k += 1;
    }
    false
}


/// Truncating division and remainder through the magnitudes of the operands.
proof fn lemma_trunc(a: int, b: int, aa: int, bb: int)
    requires
        b != 0,
        !(a == i64::MIN && b == -1),
        fits_i64(a),
        fits_i64(b),
        aa == (if a >= 0 { a } else { -a }),
        bb == (if b >= 0 { b } else { -b }),
    ensures
        trunc_div(a, b) == (if (a >= 0) == (b >= 0) { aa / bb } else { -(aa / bb) }),
        trunc_rem(a, b) == (if a >= 0 { aa % bb } else { -(aa % bb) }),
        (a >= 0) == (b >= 0) ==> aa / bb <= i64::MAX,
        0 <= aa / bb <= aa,
        0 <= aa % bb < bb,
{
    let q = aa / bb;
    let r = aa % bb;
    vstd::arithmetic::div_mod::lemma_fundamental_div_mod(aa, bb);
    assert(0 <= r < bb) by (nonlinear_arith)
        requires bb > 0, r == aa % bb;
    assert(q >= 0) by (nonlinear_arith)
        requires bb > 0, aa >= 0, q == aa / bb;
    assert(bb * q >= q) by (nonlinear_arith)
        requires bb >= 1, q >= 0;
    if (a >= 0) == (b >= 0) && aa > i64::MAX {
        assert(bb >= 2);
        assert(bb * q >= 2 * q) by (nonlinear_arith)
            requires bb >= 2, q >= 0;
    }
    if a >= 0 && b > 0 {
        assert(b * trunc_div(a, b) == bb * q);
    } else if a >= 0 && b < 0 {
        assert(b * trunc_div(a, b) == bb * q) by (nonlinear_arith)
            requires b == -bb, trunc_div(a, b) == -q;
    } else if a < 0 && b > 0 {
        assert(b * trunc_div(a, b) == -(bb * q)) by (nonlinear_arith)
            requires b == bb, trunc_div(a, b) == -q;
    } else {
        assert(b * trunc_div(a, b) == -(bb * q)) by (nonlinear_arith)
            requires b == -bb, trunc_div(a, b) == q;
    }
}

/// `a op b` on 64-bit integers (see `int_combine`).
fn int_combine_exec(op: char, a: i64, b: i64) -> (r: Option<i64>)
    ensures
        match int_combine(op, a, b) {
            Some(x) => r == Some(x as i64),
            None => r is None,
        },
{
    if op == '+' {
        a.checked_add(b)
    } else if op == '-' {
        a.checked_sub(b)
    } else if op == '*' {
        a.checked_mul(b)
    } else if op == '/' || op == '%' {
        if b == 0 {
            return None;
        }
        if a == i64::MIN && b == -1 {
            assert(trunc_div(a as int, b as int) == 9223372036854775808int);
            return None;
        }
        let ua: u64 = if a == i64::MIN { 9223372036854775808u64 } else if a < 0 { (-a) as u64 } else { a as u64 };
        let ub: u64 = if b == i64::MIN { 9223372036854775808u64 } else if b < 0 { (-b) as u64 } else { b as u64 };
        let q: u64 = ua / ub;
        let rm: u64 = ua % ub;
        proof {
            lemma_trunc(a as int, b as int, ua as int, ub as int);
        }
        if op == '/' {
            if (a >= 0) == (b >= 0) {
                Some(q as i64)
            } else if q == 9223372036854775808u64 {
                Some(i64::MIN)
            } else {
                Some(-(q as i64))
            }
        } else {
            if a >= 0 {
                Some(rm as i64)
            } else {
                Some(-(rm as i64))
            }
        }
    } else if op == '&' {
        Some(a & b)
    } else if op == '|' {
        Some(a | b)
    } else {
        Some(a ^ b)
    }
}


/// The truth of a token as a condition reads it, where no decimal number has to be read.
pub open spec fn view_truth(t: TokenView) -> bool {
    if t.data_type == DT_STR {
        (vstd::utf8::encode_utf8(t.value).len() as usize) > 2
    } else if t.data_type == DT_BOL {
        t.value == "true"@
    } else if t.data_type == UDF {
        false
    } else if t.data_type == DT_LST {
        t.list.unwrap().len() > 0
    } else {
        false
    }
}

/// The truth of the literal made from `v`; `None` when it is a number, whose truth the
/// host reads.
pub open spec fn lit_truth(v: Seq<char>) -> Option<bool> {
    if lit_view(v).data_type == DT_NUM {
        None
    } else {
        Some(view_truth(lit_view(v)))
    }
}

/// The text of a boolean.
pub open spec fn bool_text(b: bool) -> Seq<char> {
    if b { "true"@ } else { "false"@ }
}


/// The pieces of `s` between the occurrences of `c`, as `str::split` gives them.
pub open spec fn split_view(s: Seq<char>, c: char) -> Seq<Seq<char>>
    decreases s.len(),
{
    if s.len() == 0 {
        seq![Seq::empty()]
    } else {
        let p = split_view(s.drop_last(), c);
        if s.last() == c {
            p.push(Seq::empty())
        } else {
            p.update(p.len() - 1, p.last().push(s.last()))
        }
    }
}

proof fn lemma_split_view_len(s: Seq<char>, c: char)
    ensures
        split_view(s, c).len() >= 1,
    decreases s.len(),
{
    if s.len() > 0 {
        lemma_split_view_len(s.drop_last(), c);
    }
}

/// The texts of a sequence of strings.
pub open spec fn texts(v: Seq<String>) -> Seq<Seq<char>> {
    Seq::new(v.len(), |k: int| v[k]@)
}

/// The pieces of `s` between the occurrences of `c` (see `split_view`).
fn split_char(s: &str, c: char) -> (r: Vec<String>)
    ensures
        texts(r@) == split_view(s@, c),
{
    let v = chars_of(s);
    let mut out: Vec<String> = Vec::new();
    let mut cur: Vec<char> = Vec::new();
    let mut k: usize = 0;
    assert(v@.take(0) =~= Seq::<char>::empty());
    while k < v.len()
        invariant
            k <= v.len(),
            v@ == s@,
            texts(out@).push(cur@) == split_view(v@.take(k as int), c),
        decreases v.len() - k,
    {
        proof {
            lemma_split_view_len(v@.take(k as int), c);
        }
        assert(v@.take(k + 1).drop_last() =~= v@.take(k as int));
        let ghost before = texts(out@).push(cur@);
        if v[k] == c {
            let piece = string_of(&cur);
            out.push(piece);
            cur = Vec::new();
            assert(texts(out@).push(cur@) =~= before.push(Seq::empty()));
        } else {
            cur.push(v[k]);
            assert(texts(out@).push(cur@) =~= before.update(before.len() - 1, before.last().push(v@[k as int])));
        }
        k += 1;
    }
    let last = string_of(&cur);
    out.push(last);
    assert(v@.take(v.len() as int) =~= v@);
    assert(texts(out@) =~= split_view(s@, c));
    out
}

/// `s` without its first character.
fn without_first(s: &str) -> (r: String)
    ensures
        s@.len() > 0 ==> r@ == s@.skip(1),
{
    let v = chars_of(s);
    if v.len() == 0 {
        return String::new();
    }
    let r = crate::text::string_from(&v, 1, v.len());
    assert(v@.subrange(1, v@.len() as int) =~= v@.skip(1));
    r
}

/// `s` written `n` times over.
fn repeat_text(s: &str, n: u32) -> (r: String)
    ensures
        r@ == repeated(s@, n as nat),
{
    let v = chars_of(s);
    let mut out: Vec<char> = Vec::new();
    let mut k: u32 = 0;
    while k < n
        invariant
            k <= n,
            v@ == s@,
            out@ == repeated(s@, k as nat),
        decreases n - k,
    {
        let mut c = v.clone();
        assert(c@ =~= v@);
        out.append(&mut c);
        k += 1;
    }
    string_of(&out)
}

/// `v` without a leading `$`.
pub open spec fn dollar_dropped(v: Seq<char>) -> Seq<char> {
    if v.len() > 0 && v[0] == '$' { v.skip(1) } else { v }
}

/// Following references from `cur` through the memory `m`, the names in `seen` already
/// passed: a value that is no reference is the result; a name that comes back gives the
/// undefined token; otherwise the value the name reads as is followed in turn. `None`
/// when more than `budget` names would be followed.
pub open spec fn chase(m: ScopesView, cur: TokenView, seen: Seq<Seq<char>>, budget: nat) -> Option<TokenView>
    decreases budget,
{
    if cur.id != crate::statics::REF {
        Some(cur)
    } else if seen.contains(cur.value) {
        Some(udf_view())
    } else if budget == 0 {
        None
    } else {
        chase(m, m.lookup(cur.value), seen.push(cur.value), (budget - 1) as nat)
    }
}

/// The tokens of `s` that token dumps show: those whose kind's name `block` does not
/// bind to `true`.
pub open spec fn dump_kept(s: Seq<TokenView>, block: Map<Seq<char>, bool>) -> Seq<TokenView>
    decreases s.len(),
{
    if s.len() == 0 {
        Seq::empty()
    } else {
        let t = s.last();
        let name = crate::statics::token_name(t.id);
        let rest = dump_kept(s.drop_last(), block);
        if block.contains_key(name) && block[name] { rest } else { rest.push(t) }
    }
}

proof fn lemma_push_view_parser(v: Seq<Token>, t: Token)
    ensures
        views(v.push(t)) == views(v).push(t.view()),
{
    lemma_views(v);
    lemma_views(v.push(t));
    assert(views(v.push(t)) =~= views(v).push(t.view()));
}

/// Every name protected in `a` is still protected in `b` and reads as it did.
pub open spec fn keeps_protected(a: ScopesView, b: ScopesView) -> bool {
    forall|n: Seq<char>| a.protection_of(n) == 1 ==> b.protection_of(n) == 1 && #[trigger] b.lookup(n) == a.lookup(n)
}

proof fn lemma_keeps_protected_trans(a: ScopesView, b: ScopesView, c: ScopesView)
    requires
        keeps_protected(a, b),
        keeps_protected(b, c),
    ensures
        keeps_protected(a, c),
{
    assert forall|n: Seq<char>| a.protection_of(n) == 1 implies c.protection_of(n) == 1 && #[trigger] c.lookup(n) == a.lookup(n) by {
        assert(b.protection_of(n) == 1 && b.lookup(n) == a.lookup(n));
        assert(c.protection_of(n) == 1 && c.lookup(n) == b.lookup(n));
    }
}

/// Writing a name and then protecting it keeps every protected name and its value.
proof fn lemma_write_protect_keeps(v: ScopesView, name: Seq<char>, t: TokenView)
    requires
        v.depth() >= 1,
        v.protection_of(name) != 1 && v.flag_of(name) == 5 ==> v.depth() >= 2,
    ensures
        keeps_protected(v, v.assign(name, t)),
        keeps_protected(v, ScopesView { protection: v.assign(name, t).protection.insert(name, 1), ..v.assign(name, t) }),
{
    let w = v.assign(name, t);
    let w2 = ScopesView { protection: w.protection.insert(name, 1), ..w };
    assert forall|n: Seq<char>| v.protection_of(n) == 1 implies w.protection_of(n) == 1 && #[trigger] w.lookup(n) == v.lookup(n) by {
        if n == name {
            crate::laws::law_scopes_protected_unwritten(v, name, t);
        } else {
            crate::laws::law_scopes_other_names_kept(v, name, n, t);
        }
    }
    assert forall|n: Seq<char>| v.protection_of(n) == 1 implies w2.protection_of(n) == 1 && #[trigger] w2.lookup(n) == v.lookup(n) by {
        if n == name {
            crate::laws::law_scopes_protected_unwritten(v, name, t);
            assert(w == v);
            assert(w2.protection_of(n) == 1);
            assert(w2.lookup(n) == w2.read_down(n));
        } else {
            crate::laws::law_scopes_other_names_kept(v, name, n, t);
            assert(w2.protection_of(n) == w.protection_of(n));
            assert(w2.lookup(n) == w.lookup(n));
        }
    }
}

/// The literal color codes of the `System` object and the object itself.
pub open spec fn system_view() -> TokenView {
    TokenView {
        dict: Some(Map::empty()
            .insert("lime"@, lit_view("\"\\x1b[38;2;0;255;0m\""@))
            .insert("red"@, lit_view("\"\\x1b[38;2;255;0;0m\""@))
            .insert("blue"@, lit_view("\"\\x1b[38;2;0;0;255m\""@))
            .insert("cyan"@, lit_view("\"\\x1b[38;2;0;255;255m\""@))
            .insert("yellow"@, lit_view("\"\\x1b[38;2;255;255;0m\""@))
            .insert("violet"@, lit_view("\"\\x1b[38;2;255;0;255m\""@))
            .insert("default"@, lit_view("\"\\x1b[39m\""@))),
        ..new_view(crate::statics::OBJ, "SYS"@, crate::statics::DICT_TOKEN, 0, 0)
    }
}

/// Whether `System` can be bound afresh in `v`: no scope holds it, it is not protected,
/// and its flag lets it be written.
pub open spec fn system_free(v: ScopesView) -> bool {
    &&& v.protection_of("System"@) != 1
    &&& v.flag_of("System"@) <= 5
    &&& (v.flag_of("System"@) == 5 ==> v.depth() >= 2)
    &&& forall|j: int| 0 <= j < v.depth() ==> !(#[trigger] v.scopes[j]).contains_key("System"@)
}

/// The first position, from `i` on, of a `*` separator in `s`, or its length.
pub open spec fn first_star(s: Seq<TokenView>, i: int) -> int
    decreases s.len() - i,
{
    if i < 0 || i >= s.len() {
        s.len() as int
    } else if s[i].id == crate::statics::SEP && s[i].value == "*"@ {
        i
    } else {
        first_star(s, i + 1)
    }
}

/// What `derefb` gives of `t`: itself when it is no reference; for a reference, the value
/// its name (its `$` dropped) reads as, followed on (see `chase`); `None` for an empty
/// name or when more than `budget` names would be followed.
pub open spec fn derefb_view(m: ScopesView, t: TokenView, budget: nat) -> Option<TokenView> {
    if t.id != crate::statics::REF {
        Some(t)
    } else if t.value.len() == 0 {
        None
    } else {
        chase(m, m.lookup(dollar_dropped(t.value)), seq![dollar_dropped(t.value)], budget)
    }
}

/// Whether `s` is a flat arithmetic expression: literals at the even positions, single
/// arithmetic operators (`MAT` or `LOG` tokens) between them.
pub open spec fn flat_expr(s: Seq<TokenView>) -> bool {
    &&& s.len() % 2 == 1
    &&& forall|j: int| 0 <= j < s.len() && j % 2 == 0 ==> (#[trigger] s[j]).id == LIT
    &&& forall|j: int| 0 <= j < s.len() && j % 2 == 1 ==> {
        let t = #[trigger] s[j];
        &&& t.id == crate::statics::MAT || t.id == crate::statics::LOG
        &&& t.value.len() == 1
        &&& is_arith_op(t.value[0])
    }
}

/// The value of the flat expression `s` after its first `k` operators have applied, from
/// the left: its first literal, then the literal each operator gives; `None` where one of
/// them does not give a value (a decimal, which the host computes, a fault or a failure).
pub open spec fn flat_view(s: Seq<TokenView>, k: int) -> Option<TokenView>
    decreases k,
{
    if k <= 0 {
        Some(s[0])
    } else {
        match flat_view(s, k - 1) {
            Some(a) => match arith_outcome(s[2 * k - 1].value[0], a.value, s[2 * k].value) {
                Outcome::Value(v) => Some(lit_view(v)),
                _ => None,
            },
            None => None,
        }
    }
}

proof fn lemma_flat_view_prefix(s: Seq<TokenView>, n: int, k: int)
    requires
        0 <= k <= n,
        flat_view(s, n) is Some,
    ensures
        flat_view(s, k) is Some,
    decreases n - k,
{
    if k < n {
        lemma_flat_view_prefix(s, n - 1, k);
    }
}

/// The position of the first newline token of `s` from `i` on, or the length of `s`.
pub open spec fn next_newline(s: Seq<TokenView>, i: int) -> int
    decreases s.len() - i,
{
    if i < 0 || i >= s.len() {
        s.len() as int
    } else if s[i].id == crate::statics::NLN {
        i
    } else {
        next_newline(s, i + 1)
    }
}

pub proof fn lemma_next_newline(s: Seq<TokenView>, i: int)
    requires
        0 <= i <= s.len(),
    ensures
        i <= next_newline(s, i) <= s.len(),
        next_newline(s, i) < s.len() ==> s[next_newline(s, i)].id == crate::statics::NLN,
        forall|k: int| i <= k < next_newline(s, i) ==> (#[trigger] s[k]).id != crate::statics::NLN,
    decreases s.len() - i,
{
    if i < s.len() {
        lemma_next_newline(s, i + 1);
    }
}

/// How `print` shows a value: a quoted string without its quotes, anything else as it
/// is written; `None` for an empty value or a quote that cannot be taken off.
pub open spec fn printed(v: Seq<char>) -> Option<Seq<char>> {
    if v.len() == 0 {
        None
    } else if v[0] == '"' && v.last() == '"' {
        quoted_inner(v)
    } else {
        Some(v)
    }
}

/// How a statement leaves the run of its block: it goes on at a position (with the
/// count of tokens and whether an `if` branch was taken), or ends it with a value.
pub enum Flow {
    Next(usize, usize, bool),
    Done(Token),
}

/// Whether eval passes over `t` without acting on it: no meta line, keyword, assignment,
/// function, parenthesis, member dot or control block.
pub open spec fn inert(t: TokenView) -> bool {
    t.id != crate::statics::MET && t.id != crate::statics::KEY && t.id != crate::statics::ASS
        && t.id != crate::statics::FUN && t.id != crate::statics::PAR && t.id != crate::statics::DOT
        && t.id != crate::statics::CTL
}

/// Whether writing `name` in `m` can go ahead (a name flagged for the enclosing scope
/// needs one).
pub open spec fn assignable(m: ScopesView, name: Seq<char>) -> bool {
    !(m.protection_of(name) != 1 && m.flag_of(name) == 5 && m.depth() < 2)
}

/// How `print` statements lay out what they print: the line ends written after each
/// statement, and the separator text and how many times it is written between two values.
pub struct PrintSettings {
    pub line_ends: nat,
    pub sep_value: Seq<char>,
    pub sep_spaces: nat,
}

impl PrintSettings {
    /// The text written between two printed values.
    pub open spec fn separator(self) -> Seq<char> {
        repeated(self.sep_value, self.sep_spaces)
    }
}

/// Whether `name` is one of the meta settings that a meta line carries out.
pub open spec fn meta_setting(name: Seq<char>) -> bool {
    ||| name == "terminating_newlines"@
    ||| name == "print_sep_spaces"@
    ||| name == "print_sep_value"@
    ||| ("token_block__"@.len() <= name.len() && name.subrange(0, "token_block__"@.len() as int) == "token_block__"@)
}

/// What the meta line `#name value` at `s[k]` makes of the print settings `p`: the
/// number of line ends after a print and the number of separators between two values
/// are read as decimal numbers, the separator text is the value without its quotes; a
/// `token_block__` line and names of no setting leave them as they are. `None` where the
/// value is missing or cannot be read.
pub open spec fn meta_effect(p: PrintSettings, s: Seq<TokenView>, k: int) -> Option<PrintSettings> {
    let name = s[k].value;
    if !meta_setting(name) {
        Some(p)
    } else if k + 1 >= s.len() {
        None
    } else if name == "terminating_newlines"@ {
        match crate::decimal::parse_u32(s[k + 1].value) {
            Some(n) => Some(PrintSettings { line_ends: n as nat, sep_value: p.sep_value, sep_spaces: p.sep_spaces }),
            None => None,
        }
    } else if name == "print_sep_spaces"@ {
        match crate::decimal::parse_u32(s[k + 1].value) {
            Some(n) => Some(PrintSettings { line_ends: p.line_ends, sep_value: p.sep_value, sep_spaces: n as nat }),
            None => None,
        }
    } else if name == "print_sep_value"@ {
        match quoted_inner(s[k + 1].value) {
            Some(x) => Some(PrintSettings { line_ends: p.line_ends, sep_value: x, sep_spaces: p.sep_spaces }),
            None => None,
        }
    } else {
        Some(p)
    }
}

/// The truth of the header of the block `b` (its tokens before the first `*`), where
/// `expr_view` reads its value and that value's truth is read without the host.
pub open spec fn header_truth(m: ScopesView, b: Seq<TokenView>) -> Option<bool> {
    cond_truth(m, b.take(first_star(b, 0)))
}

/// The truth of the condition `h`, where `expr_view` reads its value and that value's
/// truth is read without the host.
pub open spec fn cond_truth(m: ScopesView, h: Seq<TokenView>) -> Option<bool> {
    match expr_view(m, h) {
        Some(v) => if v.data_type != DT_NUM && (v.data_type == DT_LST ==> v.list is Some) {
            Some(view_truth(v))
        } else {
            None
        },
        None => None,
    }
}

/// The signal token named `v` (`BREAK` or `CONTINUE`) that a `break` or `continue`
/// statement gives.
pub open spec fn signal_view(v: Seq<char>) -> TokenView {
    new_view(crate::statics::SIG, v, BASE_TOKEN, 0, 0)
}

/// The end of the argument that starts at `a[o]`: the position of the first separator token of `a` from `o` on (the length where none).
pub open spec fn next_arg_end(a: Seq<TokenView>, o: int) -> int
    decreases a.len() - o,
{
    if o < 0 || o >= a.len() {
        a.len() as int
    } else if a[o].id == crate::statics::SEP {
        o
    } else {
        next_arg_end(a, o + 1)
    }
}

pub proof fn lemma_next_arg_end(a: Seq<TokenView>, o: int)
    requires
        0 <= o <= a.len(),
    ensures
        o <= next_arg_end(a, o) <= a.len(),
        next_arg_end(a, o) < a.len() ==> a[next_arg_end(a, o)].id == crate::statics::SEP,
        forall|q: int| o <= q < next_arg_end(a, o) ==> (#[trigger] a[q]).id != crate::statics::SEP,
    decreases a.len() - o,
{
    if o < a.len() {
        lemma_next_arg_end(a, o + 1);
    }
}

/// The value of the argument tokens `e` of a member call: the undefined token where
/// there are none, else the value of the expression (see `expr_view`).
pub open spec fn arg_value(m: ScopesView, e: Seq<TokenView>) -> Option<TokenView> {
    if e.len() == 0 { Some(udf_view()) } else { expr_view(m, e) }
}

/// Whether `t` is a list whose recorded length is within its items and below the
/// largest `usize`.
pub open spec fn list_ready(t: TokenView) -> bool {
    &&& t.tt == crate::statics::LIST_TOKEN
    &&& t.list is Some
    &&& t.length <= t.list.unwrap().len()
    &&& t.length < usize::MAX
}

/// The list `t` with `v` appended and counted in its recorded length.
pub open spec fn pushed(t: TokenView, v: TokenView) -> TokenView {
    TokenView { length: (t.length + 1) as usize, list: Some(crate::statics::list_of(t).push(v)), ..t }
}

/// The list `t` without its last item, which its recorded length no longer counts.
pub open spec fn popped(t: TokenView) -> TokenView {
    TokenView { length: (t.length - 1) as usize, list: Some(crate::statics::list_of(t).drop_last()), ..t }
}

/// The kinds of the list members that `execute` reads, and that their names differ.
proof fn lemma_list_kinds()
    ensures
        crate::method_bindings::list_members().contains_key("push"@),
        crate::method_bindings::list_members()["push"@],
        crate::method_bindings::list_members().contains_key("pop"@),
        crate::method_bindings::list_members()["pop"@],
        crate::method_bindings::list_members().contains_key("length"@),
        !crate::method_bindings::list_members()["length"@],
        "method"@ != "property"@,
        "push"@ != "pop"@ && "push"@ != "remove"@ && "push"@ != "get"@ && "push"@ != "length"@,
        "pop"@ != "remove"@ && "pop"@ != "get"@ && "pop"@ != "length"@,
        "length"@ != "remove"@ && "length"@ != "get"@,
{
    reveal_strlit("push");
    reveal_strlit("pop");
    reveal_strlit("remove");
    reveal_strlit("length");
    reveal_strlit("get");
    reveal_strlit("method");
    reveal_strlit("property");
    assert("method"@[0] != "property"@[0]);
    assert("push"@[0] != "pop"@[0] || "push"@[1] != "pop"@[1]);
    assert("push"@[0] != "remove"@[0] && "push"@[0] != "get"@[0] && "push"@[0] != "length"@[0]);
    assert("pop"@[1] != "push"@[1]);
    assert("pop"@[0] != "remove"@[0] && "pop"@[0] != "get"@[0] && "pop"@[0] != "length"@[0]);
    assert("length"@[0] != "remove"@[0] && "length"@[0] != "get"@[0]);
}

/// The kinds of the string and number members that `execute` reads, and that their
/// names differ.
proof fn lemma_other_kinds()
    ensures
        crate::method_bindings::string_members().contains_key("is_alpha"@),
        crate::method_bindings::string_members()["is_alpha"@],
        crate::method_bindings::string_members().contains_key("is_digit"@),
        crate::method_bindings::string_members()["is_digit"@],
        crate::method_bindings::number_members().contains_key("to_string"@),
        crate::method_bindings::number_members()["to_string"@],
        "method"@ != "property"@,
        "is_alpha"@ != "is_digit"@ && "is_alpha"@ != "length"@ && "is_digit"@ != "length"@,
{
    reveal_strlit("is_alpha");
    reveal_strlit("is_digit");
    reveal_strlit("to_string");
    reveal_strlit("length");
    reveal_strlit("method");
    reveal_strlit("property");
    assert("method"@[0] != "property"@[0]);
    assert("is_alpha"@[3] != "is_digit"@[3]);
    assert("is_alpha"@[0] != "length"@[0] && "is_digit"@[0] != "length"@[0]);
}

/// The memory `m` once the parameters of the function `t`, the names from `t[j]` up to
/// its first `*` separator (other separators passed over), are bound in turn to the
/// arguments in `a` from `a[o]` on, which separator tokens part: each name is flagged as
/// an ordinary variable in the innermost scope, then given the value of its argument (see
/// `arg_value`: the undefined token where the arguments have run out; arguments beyond
/// the parameters are not read). `None` where an argument has no such value or a name
/// cannot be written.
pub open spec fn bound_args(m: ScopesView, t: Seq<TokenView>, a: Seq<TokenView>, j: int, o: int) -> Option<ScopesView>
    decreases t.len() - j,
{
    if j < 0 || j >= t.len() || (t[j].id == crate::statics::SEP && t[j].value == "*"@) {
        Some(m)
    } else if t[j].id == crate::statics::SEP {
        bound_args(m, t, a, j + 1, o)
    } else {
        let e = next_arg_end(a, o);
        let m1 = flagged(m, t[j].value, 0);
        let v = arg_value(m1, a.subrange(o, e));
        if 0 <= o <= a.len() && v is Some && assignable(m1, t[j].value) {
            bound_args(m1.assign(t[j].value, v.unwrap()), t, a, j + 1, if e < a.len() { e + 1 } else { e })
        } else {
            None
        }
    }
}

/// What calling the function whose tokens are `t` with the argument tokens `a` does in
/// the memory `m`, whose innermost scope is the call's own: the parameters are bound
/// (see `bound_args`), then all of `t` runs (see `run_block`).
pub open spec fn call_run(t: Seq<TokenView>, a: Seq<TokenView>, m: ScopesView, p: PrintSettings, fuel: nat)
    -> Option<(Seq<Seq<char>>, ScopesView, PrintSettings, Option<TokenView>)>
    decreases fuel + 1, 0int,
{
    match bound_args(m, t, a, 0, 0) {
        Some(mb) => run_block(t, mb, p, fuel),
        None => None,
    }
}

/// What the call statement whose `(` is at `s[k]` does with the evaluation limit `fuel`,
/// where the token before it names a function (followed through references, as
/// `calls_function` says) and its arguments, up to the first bracket after the `(`,
/// end with `)`: the function runs in a scope of its own (see `call_run`), which is
/// closed again. Gives what is printed, the memory and the print settings afterwards,
/// and the call's value (what its `return` gave, else the undefined token); `None` where
/// the call leaves that form.
pub open spec fn call_effect(s: Seq<TokenView>, k: int, m: ScopesView, p: PrintSettings, fuel: nat)
    -> Option<(Seq<Seq<char>>, ScopesView, PrintSettings, TokenView)>
    decreases fuel, 0int,
{
    let cp = first_par(s, k + 1);
    let t = s[k - 1];
    let v = chase(m, TokenView { value: dollar_dropped(t.value), ..t }, Seq::empty(), fuel);
    let d = derefb_view(m, t, (fuel - 1) as nat);
    if 1 <= k < cp < s.len() && fuel >= 3 && s[cp].value == ")"@ && v is Some && v.unwrap().id == crate::statics::FUN
        && d is Some && d.unwrap().list is Some && m.depth() < usize::MAX - 1 && fuel > cp - k + 3 {
        match call_run(d.unwrap().list.unwrap(), s.subrange(k + 1, cp), m.with_new_scope(), p, (fuel - 3) as nat) {
            Some((o, m2, p2, r)) => Some((o, m2.without_top_scope(), p2, match r {
                Some(x) => x,
                None => udf_view(),
            })),
            None => None,
        }
    } else {
        None
    }
}

/// What the assignment `name = f(..)` at `s[k]` does, where `f` names a function and the
/// call's `)` ends the line: the call runs (see `call_effect`) and its value, which must
/// be no reference, is written to `name`. Gives the tokens with the call replaced by its
/// value, what is printed, the memory and the print settings afterwards.
pub open spec fn call_assignment(s: Seq<TokenView>, k: int, m: ScopesView, p: PrintSettings, fuel: nat)
    -> Option<(Seq<TokenView>, Seq<Seq<char>>, ScopesView, PrintSettings)>
    decreases fuel, 1int,
{
    let cp = first_par(s, k + 3);
    let d = derefb_view(m, s[k + 1], fuel);
    if 1 <= k && k + 2 < cp && cp + 1 < s.len() && s[k].id == crate::statics::ASS && s[k].value == "="@
        && s[k - 1].id == crate::statics::REF && d is Some && d.unwrap().id == crate::statics::FUN
        && s[k + 2].id == crate::statics::PAR && s[k + 2].value == "("@ && s[cp + 1].id == crate::statics::NLN && fuel >= 1 {
        match call_effect(s, k + 2, m, p, fuel) {
            Some((o, m2, p2, res)) => if res.id != crate::statics::REF && assignable(m2, s[k - 1].value) {
                Some((s.subrange(0, k + 1) + seq![res] + s.subrange(cp + 1, s.len() as int), o, m2.assign(s[k - 1].value, res), p2))
            } else {
                None
            },
            None => None,
        }
    } else {
        None
    }
}

/// Whether `t` is the signal that a `break` statement gives.
pub open spec fn is_break(t: TokenView) -> bool {
    t.id == crate::statics::SIG && t.value == "BREAK"@
}

/// What running the block `s` from its start does with the evaluation limit `fuel` (see
/// `resume`): what is printed, the memory and the print settings at the end, and what a
/// `return`, `break` or `continue` ended it with. `None` also
/// where the limit does not cover the block: it must exceed twice its length and six.
#[verifier::opaque]
pub open spec fn run_block(s: Seq<TokenView>, m: ScopesView, p: PrintSettings, fuel: nat)
    -> Option<(Seq<Seq<char>>, ScopesView, PrintSettings, Option<TokenView>)>
    decreases fuel, s.len() + 2,
{
    if fuel > 2 * s.len() + 6 && s.len() < usize::MAX - 2 {
        resume(s, 0, m, p, false, fuel)
    } else {
        None
    }
}

/// What running the block `b` in a scope of its own does: `b` runs in a new innermost
/// scope, which is closed again afterwards (see `run_block`). A `return`, `break` or
/// `continue` in it ends the block alone: what it ended with is not passed on.
pub open spec fn scoped_run(b: Seq<TokenView>, m: ScopesView, p: PrintSettings, fuel: nat)
    -> Option<(Seq<Seq<char>>, ScopesView, PrintSettings)>
    decreases fuel + 1, 0int,
{
    if m.depth() < usize::MAX - 1 {
        match run_block(b, m.with_new_scope(), p, fuel) {
            Some((o, m1, p1, _d)) => Some((o, m1.without_top_scope(), p1)),
            None => None,
        }
    } else {
        None
    }
}

/// What running the tokens of `s` from position `k` on, with the memory `m`, prints and
/// leaves in memory, for programs of `print` statements, plain assignments (`name =`) of
/// expressions that `expr_view` reads, each ended by a newline token, and compound
/// assignments (`name op=`) of the one token after the operator, the keywords that
/// change the memory (see `keyword_effect`), meta lines, which change the print
/// settings `p` (see `meta_effect`), `if` and `else` blocks, `while` and `for` loops
/// (see `loop_effect`), function definitions, which bind the function to its name,
/// call statements (see `call_effect`) and assignments of a call's value (see
/// `call_assignment`), after which the call's tokens give way to its value; other tokens
/// are passed over. A print statement prints its values as `print_out` says (the separator of `p`
/// between two of them) and then the line ends of `p`. An `if` block whose header holds
/// (see `header_truth`), or an `else` block after no `if` block that ran (`c` tells
/// whether one did), runs in a scope of its own (see `scoped_run`, with the limit `fuel`
/// less three); the token before it is then taken out, and running goes on after the
/// token that follows it. A loop, too, takes out the token before it. A `return`
/// statement ends the run with the value of its expression (see `headed_view`), `break`
/// and `continue` with their signals. Gives what is printed, the memory and the print
/// settings at the end, and what ended the run (`None` where it reached the end of `s`);
/// `None` where the program leaves that form.
pub open spec fn resume(s: Seq<TokenView>, k: int, m: ScopesView, p: PrintSettings, c: bool, fuel: nat)
    -> Option<(Seq<Seq<char>>, ScopesView, PrintSettings, Option<TokenView>)>
    decreases fuel, s.len() + 1 - k,
{
    if k >= s.len() {
        Some((Seq::empty(), m, p, None))
    } else if k < 0 {
        None
    } else if s[k].id == crate::statics::KEY && s[k].value == "print"@ {
        let j = next_newline(s, k + 1);
        let out = print_out(m, s, k + 1, j, p.separator());
        if j < s.len() && out is Some {
            proof {
                lemma_next_newline(s, k + 1);
            }
            match resume(s, j + 1, m, p, c, fuel) {
                Some((rest, m2, p2, d)) => Some((out.unwrap() + seq![repeated("\n"@, p.line_ends)] + rest, m2, p2, d)),
                None => None,
            }
        } else {
            None
        }
    } else if s[k].id == crate::statics::KEY && s[k].value == "break"@ {
        Some((Seq::empty(), m, p, Some(signal_view("BREAK"@))))
    } else if s[k].id == crate::statics::KEY && s[k].value == "continue"@ {
        Some((Seq::empty(), m, p, Some(signal_view("CONTINUE"@))))
    } else if s[k].id == crate::statics::KEY && s[k].value == "return"@ {
        match headed_view(m, s.subrange(k + 1, next_newline(s, k + 1))) {
            Some(v) => Some((Seq::empty(), m, p, Some(v))),
            None => None,
        }
    } else if s[k].id == crate::statics::KEY && memory_keyword(s[k].value) {
        match keyword_effect(m, s, k, s[k].value) {
            Some((k2, m2)) => if m.depth() >= 1 { resume(s, k2 + 1, m2, p, c, fuel) } else { None },
            None => None,
        }
    } else if s[k].id == crate::statics::ASS && s[k].value == "="@ && fuel >= 1
        && call_assignment(s, k, m, p, (fuel - 1) as nat) is Some {
        let cp = first_par(s, k + 3);
        let ca = call_assignment(s, k, m, p, (fuel - 1) as nat).unwrap();
        if k + 3 <= s.len() && cp < s.len() {
            proof {
                lemma_first_par_from(s, k + 3);
            }
            let s2 = s.subrange(0, k + 1) + seq![ca.0[k + 1]] + s.subrange(cp + 1, s.len() as int);
            match resume(s2, k + 1, ca.2, ca.3, c, fuel) {
                Some((rest, m3, p3, d3)) => Some((ca.1 + rest, m3, p3, d3)),
                None => None,
            }
        } else {
            None
        }
    } else if s[k].id == crate::statics::ASS && s[k].value == "="@ && k >= 1 && s[k - 1].id == crate::statics::REF {
        let j = next_newline(s, k + 1);
        let t = expr_view(m, s.subrange(k + 1, j));
        if j < s.len() && t is Some && assignable(m, s[k - 1].value) {
            resume(s, k + 1, m.assign(s[k - 1].value, t.unwrap()), p, c, fuel)
        } else {
            None
        }
    } else if s[k].id == crate::statics::ASS && compound_op(s[k].value) && k >= 1 && s[k - 1].id == crate::statics::REF
        && k + 1 < s.len() {
        let t = compound_value(m, s[k - 1].value, s[k].value, s[k + 1]);
        if t is Some && assignable(m, s[k - 1].value) {
            resume(s, k + 1, m.assign(s[k - 1].value, t.unwrap()), p, c, fuel)
        } else {
            None
        }
    } else if s[k].id == crate::statics::MET {
        match meta_effect(p, s, k) {
            Some(p2) => resume(s, k + 1, m, p2, c, fuel),
            None => None,
        }
    } else if s[k].id == crate::statics::FUN {
        if assignable(m, s[k].value) { resume(s, k + 1, m.assign(s[k].value, s[k]), p, c, fuel) } else { None }
    } else if s[k].id == crate::statics::PAR && s[k].value == "("@ {
        let cp = first_par(s, k + 1);
        if 1 <= k && cp < s.len() {
            match call_effect(s, k, m, p, fuel) {
                Some((o, m2, p2, res)) => {
                    proof {
                        lemma_first_par_from(s, k + 1);
                    }
                    let s2 = s.subrange(0, k - 1) + seq![res] + s.subrange(cp + 1, s.len() as int);
                    match resume(s2, k + 1, m2, p2, c, fuel) {
                        Some((rest, m3, p3, d3)) => Some((o + rest, m3, p3, d3)),
                        None => None,
                    }
                },
                None => None,
            }
        } else {
            None
        }
    } else if s[k].id == crate::statics::CTL && s[k].value == "ifblock"@ && s[k].list is Some {
        let b = s[k].list.unwrap();
        match header_truth(m, b) {
            Some(false) => if fuel > b.len() + 2 { resume(s, k + 1, m, p, false, fuel) } else { None },
            Some(true) => if k >= 1 && fuel >= 3 {
                match scoped_run(b, m, p, (fuel - 3) as nat) {
                    Some((o1, m1, p1)) => {
                        proof {
                            assert(s.remove(k - 1).len() == s.len() - 1);
                        }
                        match resume(s.remove(k - 1), k + 1, m1, p1, true, fuel) {
                            Some((rest, m2, p2, d)) => Some((o1 + rest, m2, p2, d)),
                            None => None,
                        }
                    },
                    None => None,
                }
            } else {
                None
            },
            None => None,
        }
    } else if s[k].id == crate::statics::CTL && s[k].value == "elseblock"@ && c {
        resume(s, k + 1, m, p, c, fuel)
    } else if s[k].id == crate::statics::CTL && s[k].value == "elseblock"@ && s[k].list is Some {
        if k >= 1 && fuel >= 3 {
            match scoped_run(s[k].list.unwrap(), m, p, (fuel - 3) as nat) {
                Some((o1, m1, p1)) => {
                    proof {
                        assert(s.remove(k - 1).len() == s.len() - 1);
                    }
                    match resume(s.remove(k - 1), k + 1, m1, p1, false, fuel) {
                        Some((rest, m2, p2, d)) => Some((o1 + rest, m2, p2, d)),
                        None => None,
                    }
                },
                None => None,
            }
        } else {
            None
        }
    } else if s[k].id == crate::statics::CTL && (s[k].value == "whileloop"@ || s[k].value == "forloop"@)
        && s[k].list is Some {
        if k >= 1 {
            match loop_effect(s[k].value == "whileloop"@, s[k].list.unwrap(), m, p, fuel) {
                Some((o1, m1, p1)) => {
                    proof {
                        assert(s.remove(k - 1).len() == s.len() - 1);
                    }
                    match resume(s.remove(k - 1), k + 1, m1, p1, c, fuel) {
                        Some((rest, m2, p2, d)) => Some((o1 + rest, m2, p2, d)),
                        None => None,
                    }
                },
                None => None,
            }
        } else {
            None
        }
    } else if inert(s[k]) {
        resume(s, k + 1, m, p, c, fuel)
    } else {
        None
    }
}

/// What the `while` loop (`is_while`) or the `for` loop with the block `b` does, in a
/// scope of its own that is closed again afterwards: a `while` loop runs its body while
/// its header holds (see `while_run`), a `for` loop runs it once for each whole number of
/// its range (see `for_header`, `loop_bound` and `for_run`). The limit `fuel` less three
/// covers each run of the body.
pub open spec fn loop_effect(is_while: bool, b: Seq<TokenView>, m: ScopesView, p: PrintSettings, fuel: nat)
    -> Option<(Seq<Seq<char>>, ScopesView, PrintSettings)>
    decreases fuel, 0int,
{
    if fuel < 3 || m.depth() >= usize::MAX - 1 {
        None
    } else if is_while {
        let wr = while_run(b, b.take(first_star(b, 0)), m.with_new_scope(), p, (fuel - 3) as nat, (fuel - 2) as nat);
        if wr is Some {
            Some((wr.unwrap().0, wr.unwrap().1.without_top_scope(), wr.unwrap().2))
        } else {
            None
        }
    } else {
        let h = for_header(b);
        if h is Some && loop_bound(m, h.unwrap().1) is Some && loop_bound(m, h.unwrap().2) is Some
            && fuel > h.unwrap().1.len() + 2 && fuel > h.unwrap().2.len() + 2 {
            let hh = h.unwrap();
            let fr = for_run(b, hh.0, loop_bound(m, hh.1).unwrap(), loop_bound(m, hh.2).unwrap(),
                flagged_top(m.with_new_scope(), hh.0, 0), p, (fuel - 3) as nat);
            if fr is Some {
                Some((fr.unwrap().0, fr.unwrap().1.without_top_scope(), fr.unwrap().2))
            } else {
                None
            }
        } else {
            None
        }
    }
}

/// The position of the first parenthesis token of `s` from `j` on (the length where
/// none).
pub open spec fn first_par(s: Seq<TokenView>, j: int) -> int
    decreases s.len() - j,
{
    if j < 0 || j >= s.len() {
        s.len() as int
    } else if s[j].id == crate::statics::PAR {
        j
    } else {
        first_par(s, j + 1)
    }
}

/// The first parenthesis from position `i` on lies between `i` and the end.
pub proof fn lemma_first_par_from(s: Seq<TokenView>, i: int)
    requires
        0 <= i,
    ensures
        i <= s.len() ==> i <= first_par(s, i) <= s.len(),
        i > s.len() ==> first_par(s, i) == s.len(),
        first_par(s, i) < s.len() ==> s[first_par(s, i)].id == crate::statics::PAR,
        forall|j: int| i <= j < first_par(s, i) ==> #[trigger] s[j].id != crate::statics::PAR,
    decreases s.len() - i,
{
    if i < s.len() {
        lemma_first_par_from(s, i + 1);
    }
}

/// What `loop_effect` says of a `while` loop.
#[verifier::spinoff_prover]
proof fn lemma_while_effect(b: Seq<TokenView>, m: ScopesView, p: PrintSettings, fuel: nat)
    requires
        loop_effect(true, b, m, p, fuel) is Some,
    ensures
        ({
            let wr = while_run(b, b.take(first_star(b, 0)), m.with_new_scope(), p, (fuel - 3) as nat, (fuel - 2) as nat);
            &&& fuel >= 3 && m.depth() < usize::MAX - 1
            &&& wr is Some
            &&& loop_effect(true, b, m, p, fuel) == Some((wr.unwrap().0, wr.unwrap().1.without_top_scope(), wr.unwrap().2))
        }),
{
}

/// What `loop_effect` says of a `for` loop.
#[verifier::spinoff_prover]
proof fn lemma_for_effect(b: Seq<TokenView>, m: ScopesView, p: PrintSettings, fuel: nat)
    requires
        loop_effect(false, b, m, p, fuel) is Some,
    ensures
        ({
            let h = for_header(b).unwrap();
            let lo = loop_bound(m, h.1);
            let hi = loop_bound(m, h.2);
            let fr = for_run(b, h.0, lo.unwrap(), hi.unwrap(), flagged_top(m.with_new_scope(), h.0, 0), p, (fuel - 3) as nat);
            &&& fuel >= 3 && m.depth() < usize::MAX - 1
            &&& for_header(b) is Some && lo is Some && hi is Some
            &&& fuel > h.1.len() + 2 && fuel > h.2.len() + 2
            &&& fr is Some
            &&& loop_effect(false, b, m, p, fuel) == Some((fr.unwrap().0, fr.unwrap().1.without_top_scope(), fr.unwrap().2))
        }),
{
}

/// What the `if` or `else` block or the loop at `s[k]` does (see `resume`): the tokens
/// afterwards (the token before the block taken out where the block ran), what it
/// prints, the memory, the print settings, and whether an `if` block ran.
pub open spec fn control_step(s: Seq<TokenView>, k: int, m: ScopesView, p: PrintSettings, c: bool, fuel: nat)
    -> Option<(Seq<TokenView>, Seq<Seq<char>>, ScopesView, PrintSettings, bool)>
{
    if !(0 <= k < s.len() && s[k].id == crate::statics::CTL) {
        None
    } else if s[k].value == "elseblock"@ && c {
        Some((s, Seq::empty(), m, p, c))
    } else if (s[k].value == "ifblock"@ || s[k].value == "elseblock"@) && s[k].list is Some {
        let b = s[k].list.unwrap();
        let holds = if s[k].value == "ifblock"@ { header_truth(m, b) } else { Some(true) };
        match holds {
            Some(false) => if fuel > b.len() + 2 { Some((s, Seq::empty(), m, p, false)) } else { None },
            Some(true) => if k >= 1 && fuel >= 3 {
                match scoped_run(b, m, p, (fuel - 3) as nat) {
                    Some((o1, m1, p1)) => Some((s.remove(k - 1), o1, m1, p1, s[k].value == "ifblock"@)),
                    None => None,
                }
            } else {
                None
            },
            None => None,
        }
    } else if (s[k].value == "whileloop"@ || s[k].value == "forloop"@) && s[k].list is Some && k >= 1 {
        match loop_effect(s[k].value == "whileloop"@, s[k].list.unwrap(), m, p, fuel) {
            Some((o1, m1, p1)) => Some((s.remove(k - 1), o1, m1, p1, c)),
            None => None,
        }
    } else {
        None
    }
}

/// The first `*` of `s` is at most its length.
proof fn lemma_first_star_bound(s: Seq<TokenView>)
    ensures
        0 <= first_star(s, 0) <= s.len(),
{
    lemma_first_star_from(s, 0);
}

/// The first `*` from position `i` on lies between `i` and the end.
proof fn lemma_first_star_from(s: Seq<TokenView>, i: int)
    requires
        0 <= i,
    ensures
        i <= s.len() ==> i <= first_star(s, i) <= s.len(),
        i > s.len() ==> first_star(s, i) == s.len(),
    decreases s.len() - i,
{
    if i < s.len() {
        lemma_first_star_from(s, i + 1);
    }
}

/// Whether running the tokens `s` from position `k` on, as `resume` says, with `out`
/// already printed, ends with what `target` holds: all that is printed, the memory and
/// the print settings.
#[verifier::opaque]
pub open spec fn on_track(s: Seq<TokenView>, k: int, m: ScopesView, p: PrintSettings, c: bool, fuel: nat,
    out: Seq<Seq<char>>, target: (Seq<Seq<char>>, ScopesView, PrintSettings, Option<TokenView>)) -> bool {
    let r = resume(s, k, m, p, c, fuel);
    &&& r is Some
    &&& out + r.unwrap().0 == target.0
    &&& r.unwrap().1 == target.1
    &&& r.unwrap().2 == target.2
    &&& r.unwrap().3 == target.3
}

/// The memory `m` with `name` flagged `f` in its innermost scope.
pub open spec fn flagged_top(m: ScopesView, name: Seq<char>, f: u8) -> ScopesView {
    ScopesView { flags: m.flags.update(m.depth() - 1, m.flags.last().insert(name, f)), ..m }
}

/// What running the body `b` of a `for` loop does for each whole number from `n` up to
/// (not including) `end`, bound to `name` before each run (see `run_block`): what is
/// printed, the memory and the print settings afterwards; `None` where `name` cannot be
/// written or a run leaves the form that `run_block` reads.
#[verifier::opaque]
pub open spec fn for_run(b: Seq<TokenView>, name: Seq<char>, n: int, end: int, m: ScopesView, p: PrintSettings, fuel: nat)
    -> Option<(Seq<Seq<char>>, ScopesView, PrintSettings)>
    decreases fuel + 1, end - n,
{
    if n >= end {
        Some((Seq::empty(), m, p))
    } else if !assignable(m, name) {
        None
    } else {
        match run_block(b, m.assign(name, lit_view(int_decimal(n))), p, fuel) {
            Some((o, m2, p2, d)) => if d is Some && is_break(d.unwrap()) {
                Some((o, m2, p2))
            } else {
                match for_run(b, name, n + 1, end, m2, p2, fuel) {
                    Some((o2, m3, p3)) => Some((o + o2, m3, p3)),
                    None => None,
                }
            },
            None => None,
        }
    }
}

/// What running the body `b` of a `while` loop with the header `h` does, at most `n`
/// times: while `h` holds (see `cond_truth`), `b` runs (see `run_block`). Gives what is
/// printed, the memory and the print settings afterwards; `None` where the header or a
/// run leaves those forms, or the header still holds after `n` runs.
#[verifier::opaque]
pub open spec fn while_run(b: Seq<TokenView>, h: Seq<TokenView>, m: ScopesView, p: PrintSettings, fuel: nat, n: nat)
    -> Option<(Seq<Seq<char>>, ScopesView, PrintSettings)>
    decreases fuel + 1, n,
{
    if n == 0 || fuel <= h.len() {
        None
    } else {
        match cond_truth(m, h) {
            Some(false) => Some((Seq::empty(), m, p)),
            Some(true) => match run_block(b, m, p, fuel) {
                Some((o, m2, p2, d)) => if d is Some && is_break(d.unwrap()) {
                    Some((o, m2, p2))
                } else {
                    match while_run(b, h, m2, p2, fuel, (n - 1) as nat) {
                        Some((o2, m3, p3)) => Some((o + o2, m3, p3)),
                        None => None,
                    }
                },
                None => None,
            },
            None => None,
        }
    }
}

/// One round of `while_run`: the header is read, and where it holds the body runs once.
proof fn lemma_while_step(b: Seq<TokenView>, h: Seq<TokenView>, m: ScopesView, p: PrintSettings, fuel: nat, n: nat)
    requires
        while_run(b, h, m, p, fuel, n) is Some,
    ensures
        n >= 1 && fuel > h.len() && cond_truth(m, h) is Some,
        cond_truth(m, h) == Some(false) ==> while_run(b, h, m, p, fuel, n) == Some((Seq::<Seq<char>>::empty(), m, p)),
        cond_truth(m, h) == Some(true) ==> run_block(b, m, p, fuel) is Some,
        cond_truth(m, h) == Some(true) && run_block(b, m, p, fuel).unwrap().3 is Some
            && is_break(run_block(b, m, p, fuel).unwrap().3.unwrap()) ==> ({
            let rb = run_block(b, m, p, fuel).unwrap();
            while_run(b, h, m, p, fuel, n) == Some((rb.0, rb.1, rb.2))
        }),
        cond_truth(m, h) == Some(true) && !(run_block(b, m, p, fuel).unwrap().3 is Some
            && is_break(run_block(b, m, p, fuel).unwrap().3.unwrap())) ==> ({
            let rb = run_block(b, m, p, fuel);
            let rest = while_run(b, h, rb.unwrap().1, rb.unwrap().2, fuel, (n - 1) as nat);
            &&& rest is Some
            &&& while_run(b, h, m, p, fuel, n).unwrap().0 == rb.unwrap().0 + rest.unwrap().0
            &&& while_run(b, h, m, p, fuel, n).unwrap().1 == rest.unwrap().1
            &&& while_run(b, h, m, p, fuel, n).unwrap().2 == rest.unwrap().2
        }),
{
    reveal(while_run);
    reveal(run_block);
}

/// Whether `target` names a member of the value `d`: for an object, a name its
/// dictionary binds; otherwise a member that the table `b` gives its data type.
pub open spec fn names_member(b: crate::method_bindings::BindingsView, d: TokenView, target: Seq<char>) -> bool {
    if d.data_type == crate::statics::DT_OBJ {
        crate::statics::dict_of(d).contains_key(target)
    } else {
        b.valid(d.data_type, target)
    }
}

/// Whether `t` is the `..` separator of a range.
pub open spec fn is_range_sep(t: TokenView) -> bool {
    t.id == crate::statics::SEP && t.value == ".."@
}

/// The position of the first `..` separator of `s` from `j` on (the length where none).
pub open spec fn first_range(s: Seq<TokenView>, j: int) -> int
    decreases s.len() - j,
{
    if j < 0 || j >= s.len() {
        s.len() as int
    } else if is_range_sep(s[j]) {
        j
    } else {
        first_range(s, j + 1)
    }
}

/// The first `..` from position `i` on lies between `i` and the end.
proof fn lemma_first_range_from(s: Seq<TokenView>, i: int)
    requires
        0 <= i,
    ensures
        i <= s.len() ==> i <= first_range(s, i) <= s.len(),
        i > s.len() ==> first_range(s, i) == s.len(),
    decreases s.len() - i,
{
    if i < s.len() {
        lemma_first_range_from(s, i + 1);
    }
}

/// The tokens of `s` that are no `..` separator, in order.
pub open spec fn without_ranges(s: Seq<TokenView>) -> Seq<TokenView>
    decreases s.len(),
{
    if s.len() == 0 {
        Seq::empty()
    } else if is_range_sep(s.last()) {
        without_ranges(s.drop_last())
    } else {
        without_ranges(s.drop_last()).push(s.last())
    }
}

/// The header of the `for` loop block `b`: the loop variable (the token before the first
/// `*`), the tokens before the first `..` between the first and the second `*`, and the
/// tokens after it but its other `..` separators. No variable and empty bounds where `b`
/// has no `*`; `None` where it starts with one.
pub open spec fn for_header(b: Seq<TokenView>) -> Option<(Seq<char>, Seq<TokenView>, Seq<TokenView>)> {
    let f1 = first_star(b, 0);
    if f1 >= b.len() {
        Some((Seq::empty(), Seq::empty(), Seq::empty()))
    } else if f1 == 0 {
        None
    } else {
        let ls = b.subrange(f1 + 1, first_star(b, f1 + 1));
        let r = first_range(ls, 0);
        Some((b[f1 - 1].value, ls.take(r), if r < ls.len() { without_ranges(ls.skip(r + 1)) } else { Seq::empty() }))
    }
}

/// The bound that the tokens `e` give a `for` loop: the whole number their value reads
/// as, 0 where it reads as none (the undefined value where `e` is empty); `None` where
/// `expr_view` does not read `e`.
pub open spec fn loop_bound(m: ScopesView, e: Seq<TokenView>) -> Option<int> {
    let v = if e.len() == 0 { Some(udf_view()) } else { expr_view(m, e) };
    match v {
        Some(t) => Some(match parse_i64(t.value) { Some(n) => n as int, None => 0 }),
        None => None,
    }
}

/// One step of `resume`: a print statement, a plain assignment, or a token passed over.
#[verifier::rlimit(60)]
#[verifier::spinoff_prover]
proof fn lemma_resume_step(s: Seq<TokenView>, k: int, m: ScopesView, p: PrintSettings, c: bool, fuel: nat)
    requires
        0 <= k < s.len(),
        resume(s, k, m, p, c, fuel) is Some,
    ensures
        s[k].id == crate::statics::KEY && memory_keyword(s[k].value) ==> ({
            let eff = keyword_effect(m, s, k, s[k].value);
            &&& eff is Some && m.depth() >= 1
            &&& k <= eff.unwrap().0 < s.len()
            &&& resume(s, k, m, p, c, fuel) == resume(s, eff.unwrap().0 + 1, eff.unwrap().1, p, c, fuel)
        }),
        s[k].id == crate::statics::KEY && s[k].value == "break"@
            ==> resume(s, k, m, p, c, fuel) == Some((Seq::<Seq<char>>::empty(), m, p, Some(signal_view("BREAK"@)))),
        s[k].id == crate::statics::KEY && s[k].value == "continue"@
            ==> resume(s, k, m, p, c, fuel) == Some((Seq::<Seq<char>>::empty(), m, p, Some(signal_view("CONTINUE"@)))),
        s[k].id == crate::statics::KEY && s[k].value == "return"@ ==> ({
            let v = headed_view(m, s.subrange(k + 1, next_newline(s, k + 1)));
            &&& v is Some
            &&& resume(s, k, m, p, c, fuel) == Some((Seq::<Seq<char>>::empty(), m, p, Some(v.unwrap())))
        }),
        s[k].id == crate::statics::KEY && !memory_keyword(s[k].value) && s[k].value != "break"@
            && s[k].value != "continue"@ && s[k].value != "return"@ ==> ({
            let j = next_newline(s, k + 1);
            let out = print_out(m, s, k + 1, j, p.separator());
            &&& s[k].value == "print"@ && k + 1 <= j < s.len()
            &&& out is Some
            &&& resume(s, j + 1, m, p, c, fuel) is Some
            &&& resume(s, k, m, p, c, fuel).unwrap().0 == out.unwrap() + seq![repeated("\n"@, p.line_ends)]
                + resume(s, j + 1, m, p, c, fuel).unwrap().0
            &&& resume(s, k, m, p, c, fuel).unwrap().1 == resume(s, j + 1, m, p, c, fuel).unwrap().1
            &&& resume(s, k, m, p, c, fuel).unwrap().2 == resume(s, j + 1, m, p, c, fuel).unwrap().2
            &&& resume(s, k, m, p, c, fuel).unwrap().3 == resume(s, j + 1, m, p, c, fuel).unwrap().3
        }),
        s[k].id == crate::statics::ASS && s[k].value == "="@ && fuel >= 1
            && call_assignment(s, k, m, p, (fuel - 1) as nat) is Some ==> ({
            let ca = call_assignment(s, k, m, p, (fuel - 1) as nat).unwrap();
            &&& ca.0.len() < s.len()
            &&& resume(ca.0, k + 1, ca.2, ca.3, c, fuel) is Some
            &&& resume(s, k, m, p, c, fuel).unwrap().0 == ca.1 + resume(ca.0, k + 1, ca.2, ca.3, c, fuel).unwrap().0
            &&& resume(s, k, m, p, c, fuel).unwrap().1 == resume(ca.0, k + 1, ca.2, ca.3, c, fuel).unwrap().1
            &&& resume(s, k, m, p, c, fuel).unwrap().2 == resume(ca.0, k + 1, ca.2, ca.3, c, fuel).unwrap().2
            &&& resume(s, k, m, p, c, fuel).unwrap().3 == resume(ca.0, k + 1, ca.2, ca.3, c, fuel).unwrap().3
        }),
        s[k].id == crate::statics::ASS && s[k].value == "="@
            && !(fuel >= 1 && call_assignment(s, k, m, p, (fuel - 1) as nat) is Some) ==> ({
            let j = next_newline(s, k + 1);
            let t = expr_view(m, s.subrange(k + 1, j));
            &&& k >= 1 && s[k - 1].id == crate::statics::REF && j < s.len()
            &&& t is Some && assignable(m, s[k - 1].value)
            &&& resume(s, k, m, p, c, fuel) == resume(s, k + 1, m.assign(s[k - 1].value, t.unwrap()), p, c, fuel)
        }),
        s[k].id == crate::statics::ASS && s[k].value != "="@ ==> ({
            let t = compound_value(m, s[k - 1].value, s[k].value, s[k + 1]);
            &&& compound_op(s[k].value) && k >= 1 && s[k - 1].id == crate::statics::REF && k + 1 < s.len()
            &&& t is Some && assignable(m, s[k - 1].value)
            &&& resume(s, k, m, p, c, fuel) == resume(s, k + 1, m.assign(s[k - 1].value, t.unwrap()), p, c, fuel)
        }),
        s[k].id == crate::statics::MET ==> meta_effect(p, s, k) is Some
            && resume(s, k, m, p, c, fuel) == resume(s, k + 1, m, meta_effect(p, s, k).unwrap(), c, fuel),
        s[k].id == crate::statics::CTL ==> ({
            let st = control_step(s, k, m, p, c, fuel);
            &&& st is Some
            &&& st.unwrap().0.len() <= s.len()
            &&& resume(st.unwrap().0, k + 1, st.unwrap().2, st.unwrap().3, st.unwrap().4, fuel) is Some
            &&& resume(s, k, m, p, c, fuel).unwrap().0 == st.unwrap().1
                + resume(st.unwrap().0, k + 1, st.unwrap().2, st.unwrap().3, st.unwrap().4, fuel).unwrap().0
            &&& resume(s, k, m, p, c, fuel).unwrap().1 == resume(st.unwrap().0, k + 1, st.unwrap().2, st.unwrap().3, st.unwrap().4, fuel).unwrap().1
            &&& resume(s, k, m, p, c, fuel).unwrap().2 == resume(st.unwrap().0, k + 1, st.unwrap().2, st.unwrap().3, st.unwrap().4, fuel).unwrap().2
            &&& resume(s, k, m, p, c, fuel).unwrap().3 == resume(st.unwrap().0, k + 1, st.unwrap().2, st.unwrap().3, st.unwrap().4, fuel).unwrap().3
        }),
        s[k].id == crate::statics::FUN ==> assignable(m, s[k].value)
            && resume(s, k, m, p, c, fuel) == resume(s, k + 1, m.assign(s[k].value, s[k]), p, c, fuel),
        s[k].id == crate::statics::PAR ==> ({
            let cp = first_par(s, k + 1);
            let ce = call_effect(s, k, m, p, fuel);
            let s2 = s.subrange(0, k - 1) + seq![ce.unwrap().3] + s.subrange(cp + 1, s.len() as int);
            &&& s[k].value == "("@ && 1 <= k && k < cp < s.len() && ce is Some
            &&& s2.len() < s.len()
            &&& resume(s2, k + 1, ce.unwrap().1, ce.unwrap().2, c, fuel) is Some
            &&& resume(s, k, m, p, c, fuel).unwrap().0 == ce.unwrap().0 + resume(s2, k + 1, ce.unwrap().1, ce.unwrap().2, c, fuel).unwrap().0
            &&& resume(s, k, m, p, c, fuel).unwrap().1 == resume(s2, k + 1, ce.unwrap().1, ce.unwrap().2, c, fuel).unwrap().1
            &&& resume(s, k, m, p, c, fuel).unwrap().2 == resume(s2, k + 1, ce.unwrap().1, ce.unwrap().2, c, fuel).unwrap().2
            &&& resume(s, k, m, p, c, fuel).unwrap().3 == resume(s2, k + 1, ce.unwrap().1, ce.unwrap().2, c, fuel).unwrap().3
        }),
        s[k].id != crate::statics::KEY && s[k].id != crate::statics::ASS && s[k].id != crate::statics::MET
            && s[k].id != crate::statics::CTL && s[k].id != crate::statics::FUN && s[k].id != crate::statics::PAR
            ==> inert(s[k]) && resume(s, k, m, p, c, fuel) == resume(s, k + 1, m, p, c, fuel),
{
    if s[k].id == crate::statics::PAR {
        lemma_first_par_from(s, k + 1);
    }
    if s[k].id == crate::statics::ASS && fuel >= 1 && call_assignment(s, k, m, p, (fuel - 1) as nat) is Some {
        lemma_first_par_from(s, k + 3);
        let cp = first_par(s, k + 3);
        let ca = call_assignment(s, k, m, p, (fuel - 1) as nat).unwrap();
        assert(ca.0 =~= s.subrange(0, k + 1) + seq![ca.0[k + 1]] + s.subrange(cp + 1, s.len() as int));
    }
    lemma_next_newline(s, k + 1);
    reveal_strlit("=");
    reveal_strlit("print");
    reveal_strlit("rm");
    reveal_strlit("garbage");
    reveal_strlit("global");
    reveal_strlit("local");
    reveal_strlit("ifblock");
    reveal_strlit("elseblock");
    reveal_strlit("whileloop");
    reveal_strlit("forloop");
    reveal_strlit("break");
    reveal_strlit("continue");
    reveal_strlit("return");
    assert("break"@[0] != "print"@[0] && "continue"@[0] != "print"@[0] && "break"@[0] != "continue"@[0]);
    assert("return"@[0] != "print"@[0] && "return"@[0] != "break"@[0] && "return"@[0] != "continue"@[0]);
    assert("return"@[1] != "rm"@[1] && "return"@[0] != "garbage"@[0] && "return"@[0] != "global"@[0] && "return"@[0] != "local"@[0]);
    assert("break"@[0] != "rm"@[0] && "break"@[0] != "garbage"@[0] && "break"@[0] != "global"@[0] && "break"@[0] != "local"@[0]);
    assert("continue"@[0] != "rm"@[0] && "continue"@[0] != "garbage"@[0] && "continue"@[0] != "global"@[0] && "continue"@[0] != "local"@[0]);
    if s[k].id == crate::statics::CTL {
        assert("ifblock"@[0] != "elseblock"@[0]);
        assert("whileloop"@[0] != "forloop"@[0] && "whileloop"@[0] != "ifblock"@[0] && "whileloop"@[0] != "elseblock"@[0]);
        assert("forloop"@[0] != "ifblock"@[0] && "forloop"@[0] != "elseblock"@[0]);
        let st = control_step(s, k, m, p, c, fuel);
        if st is Some && st.unwrap().1.len() == 0 {
            assert(Seq::<Seq<char>>::empty() + resume(st.unwrap().0, k + 1, st.unwrap().2, st.unwrap().3, st.unwrap().4, fuel).unwrap().0
                =~= resume(st.unwrap().0, k + 1, st.unwrap().2, st.unwrap().3, st.unwrap().4, fuel).unwrap().0);
        }
    }
}

/// Appending the pieces of one statement, then what is left, is appending them all.
proof fn lemma_append_pieces(before: Seq<Seq<char>>, out: Seq<Seq<char>>, ends: Seq<char>, rest: Seq<Seq<char>>)
    ensures
        before + out + seq![ends] + rest == before + (out + seq![ends] + rest),
{
    assert(before + out + seq![ends] + rest =~= before + (out + seq![ends] + rest));
}

/// What a token of an expression stands for: a reference marked `$` the value its name
/// reads as (`None` where that is itself a reference or the name is empty), anything
/// else itself.
pub open spec fn resolve_one(m: ScopesView, t: TokenView) -> Option<TokenView> {
    if t.id == crate::statics::REF {
        if t.value.len() == 0 {
            None
        } else if t.value[0] == '$' {
            let v = m.lookup(t.value.skip(1));
            if v.id != crate::statics::REF { Some(v) } else { None }
        } else {
            Some(t)
        }
    } else {
        Some(t)
    }
}

/// The tokens of an expression with each one resolved (see `resolve_one`); `None` where
/// one does not resolve.
pub open spec fn resolved(m: ScopesView, s: Seq<TokenView>) -> Option<Seq<TokenView>> {
    if forall|j: int| 0 <= j < s.len() ==> (#[trigger] resolve_one(m, s[j])) is Some {
        Some(Seq::new(s.len(), |j: int| resolve_one(m, s[j]).unwrap()))
    } else {
        None
    }
}

/// Following a reference marked `$` whose name reads as a value that is no reference.
proof fn lemma_chase_one(m: ScopesView, t: TokenView, budget: nat)
    requires
        t.id == crate::statics::REF,
        budget >= 1,
        m.lookup(t.value).id != crate::statics::REF,
    ensures
        chase(m, t, Seq::empty(), budget) == Some(m.lookup(t.value)),
{
    reveal_with_fuel(chase, 2);
    assert(!Seq::<Seq<char>>::empty().contains(t.value));
}

/// The value of the expression `e` in the memory `m` where it is a flat arithmetic
/// expression once its references marked `$` are resolved (see `resolved`) and each of
/// its operators gives a value; `None` otherwise.
#[verifier::opaque]
pub open spec fn expr_view(m: ScopesView, e: Seq<TokenView>) -> Option<TokenView> {
    match resolved(m, e) {
        Some(rv) => if flat_expr(rv) && rv.len() == e.len() { flat_view(rv, (rv.len() - 1) / 2) } else { None },
        None => None,
    }
}

/// The text of the value of the expression `e` in the memory `m` (see `expr_view`).
pub open spec fn expr_value(m: ScopesView, e: Seq<TokenView>) -> Option<Seq<char>> {
    match expr_view(m, e) {
        Some(t) => Some(t.value),
        None => None,
    }
}

/// The first value of an expression that follows a keyword (`return e`): a literal, or
/// a reference marked `$` that reads as a literal, is itself or that literal; a
/// reference not so marked gives the value its name reads as (see `operand_view`);
/// `None` otherwise.
pub open spec fn lead_view(m: ScopesView, t: TokenView) -> Option<TokenView> {
    match resolve_one(m, t) {
        Some(r) => if r.id == LIT {
            Some(r)
        } else if r.id == crate::statics::REF {
            operand_view(m, t)
        } else {
            None
        },
        None => None,
    }
}

/// The value of the expression `e` that follows a keyword such as `return`, in the
/// memory `m`: its first value (see `lead_view`) alone, or with the operators and
/// literals after it applied as in a flat expression (see `expr_view`); `None` where
/// `e` is empty or not of that form.
pub open spec fn headed_view(m: ScopesView, e: Seq<TokenView>) -> Option<TokenView> {
    if e.len() == 0 {
        None
    } else {
        match lead_view(m, e[0]) {
            Some(v0) => if e.len() == 1 { Some(v0) } else { expr_view(m, seq![v0] + e.skip(1)) },
            None => None,
        }
    }
}

/// The value of a keyword's expression is no reference.
proof fn lemma_headed_view(m: ScopesView, e: Seq<TokenView>)
    requires
        headed_view(m, e) is Some,
    ensures
        headed_view(m, e).unwrap().id != crate::statics::REF,
        e.len() > 1 ==> headed_view(m, e).unwrap().id == LIT,
{
    if e.len() > 1 {
        let v0 = lead_view(m, e[0]).unwrap();
        lemma_expr_view_lit(m, seq![v0] + e.skip(1));
    }
}

/// A keyword followed by its expression, once the references marked `$` are resolved:
/// the first value and the rest read as a flat expression.
proof fn lemma_headed_parts(m: ScopesView, t: Seq<TokenView>, budget: nat)
    requires
        t.len() >= 2,
        t[0].id == crate::statics::KEY,
        headed_view(m, t.skip(1)) is Some,
    ensures
        ({
            let vin = resolved(m, t);
            let v0 = lead_view(m, t[1]).unwrap();
            let fv = seq![v0] + vin.unwrap().skip(2);
            &&& vin is Some && vin.unwrap().len() == t.len()
            &&& vin.unwrap()[0] == t[0]
            &&& (vin.unwrap()[1].id == LIT || vin.unwrap()[1].id == crate::statics::REF)
            &&& derefb_view(m, vin.unwrap()[1], budget) == Some(v0)
            &&& fv.len() == t.len() - 1
            &&& (fv.len() > 1 ==> flat_expr(fv))
            &&& flat_view(fv, (fv.len() - 1) / 2) == headed_view(m, t.skip(1))
        }),
{
    let e = t.skip(1);
    assert(e[0] == t[1]);
    let v0 = lead_view(m, t[1]).unwrap();
    let r1 = resolve_one(m, t[1]).unwrap();
    if r1.id == crate::statics::REF {
        lemma_operand_deref(m, t[1], budget);
    }
    assert(v0.id != crate::statics::REF);
    if e.len() > 1 {
        reveal(expr_view);
        let g = seq![v0] + e.skip(1);
        let rv = resolved(m, g).unwrap();
        assert forall|j: int| 0 <= j < t.len() implies (#[trigger] resolve_one(m, t[j])) is Some by {
            if j >= 2 {
                assert(g[j - 1] == t[j]);
                assert(resolve_one(m, g[j - 1]) is Some);
            }
        }
        let vin = resolved(m, t).unwrap();
        let fv = seq![v0] + vin.skip(2);
        assert(resolve_one(m, g[0]) == Some(v0));
        assert forall|j: int| 0 <= j < fv.len() implies #[trigger] fv[j] == rv[j] by {
            if j >= 1 {
                assert(g[j] == t[j + 1]);
            }
        }
        assert(fv =~= rv);
    } else {
        let vin = resolved(m, t).unwrap();
        let fv = seq![v0] + vin.skip(2);
        assert(fv =~= seq![v0]);
    }
}

/// An operator of a keyword's expression (see `lemma_headed_parts`), at `vin[i]`, and
/// the literal after it.
#[verifier::spinoff_prover]
proof fn lemma_headed_op(v0: TokenView, vin: Seq<TokenView>, i: int, steps: int, c: TokenView)
    requires
        vin.len() > 2,
        flat_expr(seq![v0] + vin.skip(2)),
        flat_view(seq![v0] + vin.skip(2), (vin.len() - 2) / 2) is Some,
        i == 2 * steps + 2,
        2 <= i < vin.len(),
        steps >= 0,
        flat_view(seq![v0] + vin.skip(2), steps) == Some(c),
    ensures
        i + 1 < vin.len(),
        vin[i + 1].id == LIT,
        i + 2 == vin.len() || vin[i + 2].id == crate::statics::MAT || vin[i + 2].id == crate::statics::LOG,
        vin[i].id == crate::statics::MAT || vin[i].id == crate::statics::LOG,
        vin[i].value.len() == 1 && is_arith_op(vin[i].value[0]),
        c.id == LIT,
        flat_view(seq![v0] + vin.skip(2), steps + 1) is Some,
        flat_view(seq![v0] + vin.skip(2), steps + 1) == match arith_outcome(vin[i].value[0], c.value, vin[i + 1].value) {
            Outcome::Value(v) => Some(lit_view(v)),
            _ => None,
        },
{
    let fv = seq![v0] + vin.skip(2);
    assert(fv.len() == vin.len() - 1);
    assert(fv.len() % 2 == 1);
    assert(i - 1 < fv.len() - 1) by (nonlinear_arith)
        requires i == 2 * steps + 2, i < fv.len() + 1, fv.len() % 2 == 1;
    assert(fv[i - 1] == vin[i]);
    assert(fv[i] == vin[i + 1]);
    let o = fv[i - 1];
    let n = fv[i];
    assert((i - 1) % 2 == 1);
    assert(i % 2 == 0);
    assert(o.id == crate::statics::MAT || o.id == crate::statics::LOG);
    assert(n.id == LIT);
    if i + 2 < vin.len() {
        assert(fv[i + 1] == vin[i + 2]);
        assert((i + 1) % 2 == 1);
        let q = fv[i + 1];
        assert(q.id == crate::statics::MAT || q.id == crate::statics::LOG);
    }
    assert(steps + 1 <= (fv.len() - 1) / 2);
    lemma_flat_view_prefix(fv, (fv.len() - 1) / 2, steps + 1);
    lemma_flat_view_lit(fv, steps);
    assert(2 * (steps + 1) - 1 == i - 1);
    assert(2 * (steps + 1) == i);
}

/// The value of a flat expression is a literal.
proof fn lemma_expr_view_lit(m: ScopesView, e: Seq<TokenView>)
    requires
        expr_view(m, e) is Some,
    ensures
        expr_view(m, e).unwrap().id == LIT,
{
    reveal(expr_view);
    let rv = resolved(m, e).unwrap();
    lemma_flat_view_lit(rv, (rv.len() - 1) / 2);
}

proof fn lemma_flat_view_lit(s: Seq<TokenView>, k: int)
    requires
        flat_expr(s),
        0 <= k,
        2 * k < s.len(),
        flat_view(s, k) is Some,
    ensures
        flat_view(s, k).unwrap().id == LIT,
    decreases k,
{
    if k <= 0 {
        assert(s[0].id == LIT);
    }
}

/// Whether `t` can stand in an expression that `expr_view` reads: a literal, an operator
/// or a reference.
pub open spec fn expr_token(t: TokenView) -> bool {
    t.id == LIT || t.id == crate::statics::MAT || t.id == crate::statics::LOG || t.id == crate::statics::REF
}

proof fn lemma_expr_tokens(m: ScopesView, e: Seq<TokenView>)
    requires
        expr_value(m, e) is Some,
    ensures
        e.len() % 2 == 1,
        forall|j: int| 0 <= j < e.len() ==> expr_token(#[trigger] e[j]),
{
    reveal(expr_view);
    let rv = resolved(m, e).unwrap();
    assert forall|j: int| 0 <= j < e.len() implies expr_token(#[trigger] e[j]) by {
        assert(resolve_one(m, e[j]) is Some);
        assert(rv[j] == resolve_one(m, e[j]).unwrap());
        if j % 2 == 0 {
            assert(rv[j].id == LIT);
        } else {
            assert(rv[j].id == crate::statics::MAT || rv[j].id == crate::statics::LOG);
        }
    }
}

/// The first token of an expression that `expr_view` reads, followed through `derefb`,
/// is a literal (never a function to call).
proof fn lemma_expr_first(m: ScopesView, e: Seq<TokenView>, budget: nat)
    requires
        expr_view(m, e) is Some,
    ensures
        e.len() >= 1,
        derefb_view(m, e[0], budget) is Some,
        derefb_view(m, e[0], budget).unwrap().id == LIT,
{
    reveal(expr_view);
    let rv = resolved(m, e).unwrap();
    assert(resolve_one(m, e[0]) is Some);
    assert(rv[0] == resolve_one(m, e[0]).unwrap());
    assert(rv[0].id == LIT);
    if e[0].id == crate::statics::REF {
        assert(dollar_dropped(e[0].value) == e[0].value.skip(1));
    }
}

/// Whether `t` is the separator `,` that divides the values of a `print` statement.
pub open spec fn is_sep(t: TokenView) -> bool {
    t.id == crate::statics::SEP && t.value == data_type_of(crate::statics::SEP, ","@).1
        && t.data_type == data_type_of(crate::statics::SEP, ","@).0
}

/// The position of the first separator of `s` from `a` on, before `j`; else `j`.
pub open spec fn next_sep(s: Seq<TokenView>, a: int, j: int) -> int
    decreases j - a,
{
    if a < 0 || a >= j {
        j
    } else if is_sep(s[a]) {
        a
    } else {
        next_sep(s, a + 1, j)
    }
}

pub proof fn lemma_next_sep(s: Seq<TokenView>, a: int, j: int)
    requires
        0 <= a <= j,
    ensures
        a <= next_sep(s, a, j) <= j,
        next_sep(s, a, j) < j ==> is_sep(s[next_sep(s, a, j)]),
        forall|k: int| a <= k < next_sep(s, a, j) ==> !is_sep(#[trigger] s[k]),
    decreases j - a,
{
    if a < j {
        lemma_next_sep(s, a + 1, j);
    }
}

/// What printing the values `s[a..j]` of a `print` statement prints, in the memory `m`:
/// the values are divided by separators, each is an expression that `expr_view` reads,
/// and each is printed as `printed` says, with `sep` between two of them. `None` where
/// the values are not of that form.
pub open spec fn print_out(m: ScopesView, s: Seq<TokenView>, a: int, j: int, sep: Seq<char>) -> Option<Seq<Seq<char>>>
    decreases j - a,
{
    if a < 0 || a > j {
        None
    } else {
        let f = next_sep(s, a, j);
        let v = expr_value(m, s.subrange(a, f));
        if v is None || printed(v.unwrap()) is None {
            None
        } else if f < j {
            proof {
                lemma_next_sep(s, a, j);
            }
            match print_out(m, s, f + 1, j, sep) {
                Some(rest) => Some(seq![printed(v.unwrap()).unwrap(), sep] + rest),
                None => None,
            }
        } else {
            Some(seq![printed(v.unwrap()).unwrap()])
        }
    }
}

/// The first value of a `print` statement and what comes after it.
proof fn lemma_print_out_step(m: ScopesView, s: Seq<TokenView>, a: int, j: int, sep: Seq<char>)
    requires
        print_out(m, s, a, j, sep) is Some,
        j <= s.len(),
    ensures
        ({
            let f = next_sep(s, a, j);
            let v = expr_value(m, s.subrange(a, f));
            &&& 0 <= a < f <= j
            &&& v is Some && printed(v.unwrap()) is Some
            &&& f < j ==> print_out(m, s, f + 1, j, sep) is Some
                && print_out(m, s, a, j, sep).unwrap() == seq![printed(v.unwrap()).unwrap(), sep] + print_out(m, s, f + 1, j, sep).unwrap()
            &&& f == j ==> print_out(m, s, a, j, sep).unwrap() == seq![printed(v.unwrap()).unwrap()]
        }),
{
    lemma_next_sep(s, a, j);
    let f = next_sep(s, a, j);
    lemma_expr_tokens(m, s.subrange(a, f));
}

/// The value the token after a compound assignment operator stands for: a literal
/// itself, a reference (marked `$` or not) the value its name reads as, where that is no
/// reference; `None` otherwise.
pub open spec fn operand_view(m: ScopesView, t: TokenView) -> Option<TokenView> {
    if t.id == LIT {
        Some(t)
    } else if t.id == crate::statics::REF && t.value.len() > 0
        && m.lookup(dollar_dropped(t.value)).id != crate::statics::REF {
        Some(m.lookup(dollar_dropped(t.value)))
    } else {
        None
    }
}

/// Whether `v` is one of the comparison operators `>`, `<`, `>=` and `<=`, which the
/// host decides on numbers.
pub open spec fn comparison_op(v: Seq<char>) -> bool {
    v == ">"@ || v == "<"@ || v == ">="@ || v == "<="@
}

/// Whether `v` names a compound assignment operator such as `+=`.
pub open spec fn compound_op(v: Seq<char>) -> bool {
    v.len() > 0 && is_arith_op(v[0])
}

/// What a compound assignment `name op= t` stores in `m`: the literal of `op` applied to
/// the value `name` reads as and the value of `t`; `None` where that gives no value.
pub open spec fn compound_value(m: ScopesView, name: Seq<char>, op: Seq<char>, t: TokenView) -> Option<TokenView> {
    match operand_view(m, t) {
        Some(d) => if d.id != crate::statics::FUN && compound_op(op) {
            match arith_outcome(op[0], m.lookup(name).value, d.value) {
                Outcome::Value(v) => Some(lit_view(v)),
                _ => None,
            }
        } else {
            None
        },
        None => None,
    }
}

proof fn lemma_operand_deref(m: ScopesView, t: TokenView, budget: nat)
    requires
        operand_view(m, t) is Some,
    ensures
        derefb_view(m, t, budget) == operand_view(m, t),
{
}

/// Whether `v` is one of the keywords that change the memory: `rm`, `garbage`, `global`
/// and `local`.
pub open spec fn memory_keyword(v: Seq<char>) -> bool {
    v == "rm"@ || v == "garbage"@ || v == "global"@ || v == "local"@
}

/// The scopes with every binding gone (flags and protection kept).
pub open spec fn cleared(m: ScopesView) -> ScopesView {
    ScopesView { scopes: Seq::new(m.scopes.len(), |i: int| Map::<Seq<char>, TokenView>::empty()), ..m }
}

/// The scopes with `name` flagged `f` in the innermost scope.
pub open spec fn flagged(m: ScopesView, name: Seq<char>, f: u8) -> ScopesView {
    ScopesView { flags: m.flags.update(m.depth() - 1, m.flags.last().insert(name, f)), ..m }
}

/// What the keyword `v` at `s[k]` does to the memory `m`, and the position it stops at:
/// `rm name` removes the name, `garbage name` collects it from every scope and a bare
/// `garbage` clears every scope, `global name` and `local name` flag a reference 3 or 0.
/// `None` for another keyword or one with nothing after it.
pub open spec fn keyword_effect(m: ScopesView, s: Seq<TokenView>, k: int, v: Seq<char>) -> Option<(int, ScopesView)> {
    if k + 1 >= s.len() || k < 0 {
        None
    } else if v == "rm"@ {
        Some((k + 1, m.removal(s[k + 1].value)))
    } else if v == "garbage"@ {
        if s[k + 1].id == crate::statics::NLN {
            Some((k, cleared(m)))
        } else {
            Some((k + 1, m.collected(s[k + 1].value)))
        }
    } else if v == "global"@ || v == "local"@ {
        if s[k + 1].id == crate::statics::REF {
            Some((k, flagged(m, s[k + 1].value, if v == "global"@ { 3u8 } else { 0u8 })))
        } else {
            Some((k, m))
        }
    } else {
        None
    }
}

/// The text of a list of tokens as the token dumps show it: each token displayed as
/// `(NAME, "text")` inside the printed list; `None` where a token's kind has no name.
fn tokens_text(lst: &Vec<Token>) -> (r: Option<String>)
    ensures
        r is Some <==> (forall|j: int| 0 <= j < lst@.len() ==> #[trigger] lst@[j].id <= crate::statics::PTR),
        r is Some ==> r.unwrap()@ == crate::statics::list_text_of(
            lst@.map_values(|t: Token| crate::statics::displayed(t.view()))),
{
    let mut shown: Vec<String> = Vec::new();
    let mut k: usize = 0;
    while k < lst.len()
        invariant
            k <= lst.len(),
            shown@.len() == k,
            forall|j: int| 0 <= j < k ==> lst@[j].id <= crate::statics::PTR,
            forall|j: int| 0 <= j < k ==> #[trigger] shown@[j]@ == crate::statics::displayed(lst@[j].view()),
        decreases lst.len() - k,
    {
        if lst[k].id > crate::statics::PTR {
            return None;
        }
        shown.push(lst[k].display());
        k += 1;
    }
    let r = crate::statics::list_text(&shown);
    assert(shown@.map_values(|s: String| s@) =~= lst@.map_values(|t: Token| crate::statics::displayed(t.view())));
    Some(r)
}

/// The message of a run that ran out of evaluation steps.
fn limit_reached() -> (r: String)
    ensures
        r@ == "evaluation limit reached"@,
{
    "evaluation limit reached".to_owned()
}

/// `s` followed by a line end.
fn line_of(s: &str) -> (r: String)
    ensures
        r@ == s@.push('\n'),
{
    let mut v = chars_of(s);
    v.push('\n');
    string_of(&v)
}


/// Whether a token's containers are as its kind promises and its recorded length fits
/// its list (the list operations rely on both).
pub open spec fn well_made(t: Token) -> bool {
    &&& containers_present(t)
    &&& t.tt == crate::statics::LIST_TOKEN ==> t.length <= t.list.unwrap().len() && t.length < usize::MAX
}

/// Whether `t` is well made (see `well_made`).
fn is_well_made(t: &Token) -> (r: bool)
    ensures
        r == well_made(*t),
{
    if t.tt == crate::statics::LIST_TOKEN {
        match &t.list {
            Some(l) => t.length <= l.len() && t.length < usize::MAX,
            None => false,
        }
    } else if t.tt == crate::statics::DICT_TOKEN {
        t.dict.is_some()
    } else {
        true
    }
}

/// A copy of `tokens[k]`; fails past the end.
fn token_at(tokens: &Vec<Token>, k: usize) -> (r: Result<Token, String>)
    ensures
        r matches Ok(t) ==> k < tokens.len() && t.view() == tokens@[k as int].view(),
        r is Err <==> k >= tokens.len(),
{
    if k < tokens.len() {
        Ok(tokens[k].clone())
    } else {
        Err("index out of bounds".to_owned())
    }
}

/// Removes `tokens[k]`; fails past the end.
fn take_at(tokens: &mut Vec<Token>, k: usize) -> (r: Result<Token, String>)
    ensures
        k < old(tokens).len() ==> r is Ok && final(tokens)@ == old(tokens)@.remove(k as int),
        k >= old(tokens).len() ==> r is Err && final(tokens)@ == old(tokens)@,
{
    if k < tokens.len() {
        Ok(tokens.remove(k))
    } else {
        Err("index out of bounds".to_owned())
    }
}

/// Replaces `tokens[k]`; fails past the end.
fn put_at(tokens: &mut Vec<Token>, k: usize, t: Token) -> (r: Result<(), String>)
    ensures
        k < old(tokens).len() ==> r is Ok && final(tokens)@ == old(tokens)@.update(k as int, t),
        k >= old(tokens).len() ==> r is Err && final(tokens)@ == old(tokens)@,
{
    if k < tokens.len() {
        tokens.set(k, t);
        Ok(())
    } else {
        Err("index out of bounds".to_owned())
    }
}

/// Whether `t` is the separator `*`.
fn is_star(t: &Token) -> (r: bool)
    ensures
        r == (t.id == crate::statics::SEP && t.value@ == "*"@),
{
    t.id == crate::statics::SEP && str_eq(t.value.as_str(), "*")
}


/// Whether `s` starts with `p`.
fn has_prefix(s: &str, p: &str) -> (r: bool)
    ensures
        r == (p@.len() <= s@.len() && s@.subrange(0, p@.len() as int) == p@),
{
    let a = chars_of(s);
    let b = chars_of(p);
    if b.len() > a.len() {
        return false;
    }
    let mut k: usize = 0;
    while k < b.len()
        invariant
            k <= b.len() <= a.len(),
            a@ == s@,
            b@ == p@,
            forall|j: int| 0 <= j < k ==> a@[j] == b@[j],
        decreases b.len() - k,
    {
        if a[k] != b[k] {
            return false;
        }
        k += 1;
    }
    assert(s@.subrange(0, p@.len() as int) =~= p@);
    true
}

/// `s` without its first `n` characters.
fn drop_chars(s: &str, n: usize) -> (r: String)
    ensures
        n <= s@.len() ==> r@ == s@.skip(n as int),
{
    let v = chars_of(s);
    if n > v.len() {
        return String::new();
    }
    let r = crate::text::string_from(&v, n, v.len());
    assert(v@.subrange(n as int, v@.len() as int) =~= v@.skip(n as int));
    r
}

/// The decimal text of `n`.
fn usize_text(n: usize) -> (r: String)
    ensures
        r@ == crate::decimal::nat_digits(n as nat),
{
    let d = crate::decimal::u64_digits(n as u64);
    string_of(&d)
}

/// The interpreter: the program's tokens, its memory of variables, the memories of the
/// modules it loaded, and its settings.
#[allow(non_snake_case)]
pub struct Parser {
    tokens: Vec<Token>,
    pub memory: VarScopes,
    pub modules: Vec<(String, VarScopes)>,
    LOG: Logger,
    SEPTOK: Token,
    UDFTOK: Token,
    BINDINGS: Bindings,
    meta_terminating_newlines: u32,
    meta_print_sep_spaces: u32,
    meta_print_sep_value: String,
    token_block: NameMap<bool>,
    written: Ghost<Seq<Seq<char>>>,
}

impl Parser {
    /// What holds of an interpreter between statements: its memory and the memory of
    /// every module are well formed and have a scope open.
    pub closed spec fn inv(&self) -> bool {
        &&& self.SEPTOK.id == crate::statics::SEP
        &&& self.SEPTOK.value@ == data_type_of(crate::statics::SEP, ","@).1
        &&& self.SEPTOK.data_type == data_type_of(crate::statics::SEP, ","@).0
        &&& self.UDFTOK.view() == udf_view()
        &&& self.BINDINGS.view().lists == crate::method_bindings::list_members()
        &&& self.BINDINGS.view().strings == crate::method_bindings::string_members()
        &&& self.BINDINGS.view().numbers == crate::method_bindings::number_members()
        &&& self.memory.wf()
        &&& self.memory.view().depth() >= 1
        &&& forall|k: int| 0 <= k < self.modules.len()
            ==> (#[trigger] self.modules@[k]).1.wf() && self.modules@[k].1.view().depth() >= 1
    }

    /// The program the interpreter runs.
    pub closed spec fn program(&self) -> Seq<TokenView> {
        views(self.tokens@)
    }

    /// What the interpreter's memory holds.
    pub closed spec fn memory_view(&self) -> ScopesView {
        self.memory.view()
    }

    /// How many modules the interpreter has loaded.
    pub closed spec fn module_count(&self) -> nat {
        self.modules@.len()
    }

    /// What the interpreter has written to its host, piece by piece.
    pub closed spec fn output(&self) -> Seq<Seq<char>> {
        self.written@
    }

    /// Which kinds of token are left out of token dumps (by the name of the kind).
    pub closed spec fn token_blocks(&self) -> Map<Seq<char>, bool> {
        self.token_block.view()
    }

    /// How `print` statements lay out what they print.
    pub closed spec fn printing(&self) -> PrintSettings {
        PrintSettings {
            line_ends: self.meta_terminating_newlines as nat,
            sep_value: self.meta_print_sep_value@,
            sep_spaces: self.meta_print_sep_spaces as nat,
        }
    }

    /// Whether `b` has the program, the output and the print settings of `a`.
    pub closed spec fn keeps_program_and_output(a: Parser, b: Parser) -> bool {
        &&& b.tokens@ == a.tokens@
        &&& b.written@ == a.written@
        &&& b.meta_terminating_newlines == a.meta_terminating_newlines
        &&& b.meta_print_sep_value@ == a.meta_print_sep_value@
        &&& b.meta_print_sep_spaces == a.meta_print_sep_spaces
    }

    /// Writes `text` to the host.
    fn emit<H: Host>(&mut self, host: &mut H, text: &str)
        ensures
            *final(self) == (Parser { written: Ghost(old(self).output().push(text@)), ..*old(self) }),
    {
        host.write(text);
        proof {
            self.written = Ghost(self.written@.push(text@));
        }
    }

    /// Writes `text` and a line end to the host.
    fn emit_line<H: Host>(&mut self, host: &mut H, text: &str)
        ensures
            *final(self) == (Parser { written: Ghost(old(self).output().push(text@.push('\n'))), ..*old(self) }),
    {
        let l = line_of(text);
        self.emit(host, l.as_str());
    }

    /// An interpreter for the program `tokens`, with a fresh memory, no modules, one
    /// newline after each print and a single space between printed values.
    pub fn new(tokens: Vec<Token>) -> (r: Parser)
        ensures
            r.inv(),
            r.program() == views(tokens@),
            r.memory_view().scopes == seq![Map::<Seq<char>, TokenView>::empty()],
            r.memory_view().flags == seq![Map::<Seq<char>, u8>::empty()],
            r.memory_view().protection == Map::<Seq<char>, u8>::empty(),
            r.memory_view().inter == Map::<Seq<char>, u8>::empty(),
            r.module_count() == 0,
            r.output() == Seq::<Seq<char>>::empty(),
            r.printing() == (PrintSettings { line_ends: 1, sep_value: " "@, sep_spaces: 1 }),
            r.token_blocks() == Map::<Seq<char>, bool>::empty(),
            r.printing().separator() == " "@,
    {
        proof {
            assert(repeated(" "@, 1) == repeated(" "@, 0) + " "@);
            assert(repeated(" "@, 1) =~= " "@);
        }
        Parser {
            tokens: tokens,
            memory: VarScopes::new(),
            modules: Vec::new(),
            LOG: Logger::new(),
            SEPTOK: Token::news(crate::statics::SEP, ",", BASE_TOKEN),
            UDFTOK: Token::news(UDF, "UDF", BASE_TOKEN),
            BINDINGS: Bindings::new(),
            meta_terminating_newlines: 1,
            meta_print_sep_spaces: 1,
            meta_print_sep_value: copy_str(" "),
            token_block: NameMap::new(),
            written: Ghost(Seq::empty()),
        }
    }

    /// The undefined token, which failed operations give.
    fn __fault(&self) -> (r: Token)
        ensures
            r.view() == udf_view(),
            containers_present(r),
    {
        udf_token()
    }

    /// The literal of the decimal result the host computes for `v1 op v2`.
    fn decimal_result<H: Host>(&self, host: &mut H, op: char, v1: &str, v2: &str) -> (r: Result<Token, String>)
        ensures
            r matches Ok(t) ==> t.id == LIT,
    {
        match host.decimal(op, v1, v2) {
            Some(s) => Ok(lit_token(s)),
            None => Err("invalid number".to_owned()),
        }
    }

    /// The literal of `v1 op v2` read as 64-bit integers (see `int_outcome`).
    fn int_result(&self, op: char, v1: &str, v2: &str) -> (r: Result<Token, String>)
        ensures
            agrees(r, int_outcome(op, v1@, v2@)),
    {
        match (parse_i64_str(v1), parse_i64_str(v2)) {
            (Some(a), Some(b)) => match int_combine_exec(op, a, b) {
                Some(x) => Ok(lit_token(i64_to_string(x))),
                None => Err("arithmetic overflow".to_owned()),
            },
            _ => Err("invalid number".to_owned()),
        }
    }

    /// `v1 op v2` for the arithmetic operators `+ - * / & | % ^` (see `arith_outcome`).
    #[verifier::rlimit(40)]
    fn arith<H: Host>(&self, host: &mut H, op: char, v1: &str, v2: &str) -> (r: Result<Token, String>)
        ensures
            agrees(r, arith_outcome(op, v1@, v2@)),
    {
        if op == '+' || op == '*' {
            if pattern_found(NUMBER_RE_PAT, v1) {
                if !pattern_found(NUMBER_RE_PAT, v2) {
                    return Err("mismatched types".to_owned());
                }
                if pattern_found(DECI_RE_PAT, v1) || pattern_found(DECI_RE_PAT, v2) {
                    return self.decimal_result(host, op, v1, v2);
                }
                self.int_result(op, v1, v2)
            } else if pattern_found(TOKEN_STR_RE_PAT, v1) {
                if op == '+' {
                    if !pattern_found(TOKEN_STR_RE_PAT, v2) {
                        return Err("mismatched types".to_owned());
                    }
                    match (quoted_inner_exec(v1), quoted_inner_exec(v2)) {
                        (Some(a), Some(b)) => {
                            let mut a = a;
                            let mut b = b;
                            let ghost av = a@;
                            let ghost bv = b@;
                            a.append(&mut b);
                            assert(seq!['"'] + a@ + seq!['"'] =~= seq!['"'] + av + bv + seq!['"']);
                            Ok(lit_token(quoted(&a)))
                        },
                        _ => Err("invalid string".to_owned()),
                    }
                } else {
                    if !pattern_found(NUMBER_RE_PAT, v2) {
                        return Err("mismatched types".to_owned());
                    }
                    match (quoted_inner_exec(v1), parse_usize_str(v2)) {
                        (Some(a), Some(n)) => {
                            let mut out: Vec<char> = Vec::new();
                            let mut k: usize = 0;
                            while k < n
                                invariant
                                    k <= n,
                                    out@ == repeated(a@, k as nat),
                                decreases n - k,
                            {
                                let mut c = a.clone();
                                assert(c@ =~= a@);
                                out.append(&mut c);
                                k += 1;
                            }
                            Ok(lit_token(quoted(&out)))
                        },
                        _ => Err("invalid number".to_owned()),
                    }
                }
            } else {
                Ok(self.__fault())
            }
        } else if op == '-' || op == '/' {
            if !(pattern_found(NUMBER_RE_PAT, v1) && pattern_found(NUMBER_RE_PAT, v2)) {
                return Ok(self.__fault());
            }
            if pattern_found(DECI_RE_PAT, v1) || pattern_found(DECI_RE_PAT, v2) {
                return self.decimal_result(host, op, v1, v2);
            }
            self.int_result(op, v1, v2)
        } else {
            if !pattern_found(NUMBER_RE_PAT, v1) || has_char(v1, '.') || !pattern_found(NUMBER_RE_PAT, v2) || has_char(v2, '.') {
                return Ok(self.__fault());
            }
            self.int_result(op, v1, v2)
        }
    }

    /// `v1 + v2`: numbers add, strings join.
    fn addition<H: Host>(&self, host: &mut H, v1: String, v2: String) -> (r: Result<Token, String>)
        ensures
            agrees(r, arith_outcome('+', v1@, v2@)),
    {
        self.arith(host, '+', v1.as_str(), v2.as_str())
    }

    /// `v1 - v2` on numbers.
    fn subtraction<H: Host>(&self, host: &mut H, v1: String, v2: String) -> (r: Result<Token, String>)
        ensures
            agrees(r, arith_outcome('-', v1@, v2@)),
    {
        self.arith(host, '-', v1.as_str(), v2.as_str())
    }

    /// `v1 * v2`: numbers multiply, a string repeats.
    fn multiplication<H: Host>(&self, host: &mut H, v1: String, v2: String) -> (r: Result<Token, String>)
        ensures
            agrees(r, arith_outcome('*', v1@, v2@)),
    {
        self.arith(host, '*', v1.as_str(), v2.as_str())
    }

    /// `v1 / v2` on numbers.
    fn division<H: Host>(&self, host: &mut H, v1: String, v2: String) -> (r: Result<Token, String>)
        ensures
            agrees(r, arith_outcome('/', v1@, v2@)),
    {
        self.arith(host, '/', v1.as_str(), v2.as_str())
    }

    /// `v1 & v2` on whole numbers.
    fn bin_and<H: Host>(&self, host: &mut H, v1: String, v2: String) -> (r: Result<Token, String>)
        ensures
            agrees(r, arith_outcome('&', v1@, v2@)),
    {
        self.arith(host, '&', v1.as_str(), v2.as_str())
    }

    /// `v1 | v2` on whole numbers.
    fn bin_or<H: Host>(&self, host: &mut H, v1: String, v2: String) -> (r: Result<Token, String>)
        ensures
            agrees(r, arith_outcome('|', v1@, v2@)),
    {
        self.arith(host, '|', v1.as_str(), v2.as_str())
    }

    /// `v1 ^ v2` on whole numbers.
    fn bin_xor<H: Host>(&self, host: &mut H, v1: String, v2: String) -> (r: Result<Token, String>)
        ensures
            agrees(r, arith_outcome('^', v1@, v2@)),
    {
        self.arith(host, '^', v1.as_str(), v2.as_str())
    }

    /// `v1 % v2` on whole numbers.
    fn modulo_op<H: Host>(&self, host: &mut H, v1: String, v2: String) -> (r: Result<Token, String>)
        ensures
            agrees(r, arith_outcome('%', v1@, v2@)),
    {
        self.arith(host, '%', v1.as_str(), v2.as_str())
    }

    /// The truth of `t` as a condition reads it; the host reads numbers.
    fn truth_of<H: Host>(&self, host: &mut H, t: &Token) -> (r: Result<bool, String>)
        ensures
            t.data_type != DT_NUM && (t.data_type == DT_LST ==> t.list is Some) ==> r == Ok::<bool, String>(view_truth(t.view())),
    {
        if t.data_type == DT_NUM {
            return match host.positive(t.value.as_str()) {
                Some(b) => Ok(b),
                None => Err("invalid number".to_owned()),
            };
        }
        if t.data_type == DT_LST && t.list.is_none() {
            return Err("invalid list".to_owned());
        }
        proof {
            if t.data_type == DT_LST {
                lemma_views(t.list.unwrap()@);
            }
        }
        Ok(t.bool())
    }

    /// The literal `true` or `false`.
    fn bool_token(b: bool) -> (r: Token)
        ensures
            r.view() == lit_view(bool_text(b)),
    {
        if b {
            Token::news(LIT, "true", BASE_TOKEN)
        } else {
            Token::news(LIT, "false", BASE_TOKEN)
        }
    }

    /// `v1 && v2`: both literals true.
    fn log_and<H: Host>(&self, host: &mut H, v1: String, v2: String) -> (r: Result<Token, String>)
        ensures
            lit_truth(v1@) is Some && lit_truth(v2@) is Some
                ==> (r matches Ok(t) && t.view() == lit_view(bool_text(lit_truth(v1@).unwrap() && lit_truth(v2@).unwrap()))),
    {
        let t1 = lit_token(v1);
        let t2 = lit_token(v2);
        assert(t1.data_type == lit_view(v1@).data_type && t1.list is None);
        assert(t2.data_type == lit_view(v2@).data_type && t2.list is None);
        let b1 = match self.truth_of(host, &t1) {
            Ok(b) => b,
            Err(e) => {
                return Err(e);
            },
        };
        let b2 = match self.truth_of(host, &t2) {
            Ok(b) => b,
            Err(e) => {
                return Err(e);
            },
        };
        Ok(Self::bool_token(b1 && b2))
    }

    /// `v1 || v2`: either literal true.
    fn log_or<H: Host>(&self, host: &mut H, v1: String, v2: String) -> (r: Result<Token, String>)
        ensures
            lit_truth(v1@) is Some && lit_truth(v2@) is Some
                ==> (r matches Ok(t) && t.view() == lit_view(bool_text(lit_truth(v1@).unwrap() || lit_truth(v2@).unwrap()))),
    {
        let t1 = lit_token(v1);
        let t2 = lit_token(v2);
        assert(t1.data_type == lit_view(v1@).data_type && t1.list is None);
        assert(t2.data_type == lit_view(v2@).data_type && t2.list is None);
        let b1 = match self.truth_of(host, &t1) {
            Ok(b) => b,
            Err(e) => {
                return Err(e);
            },
        };
        let b2 = match self.truth_of(host, &t2) {
            Ok(b) => b,
            Err(e) => {
                return Err(e);
            },
        };
        Ok(Self::bool_token(b1 || b2))
    }

    /// `v1 op v2` compared as numbers (`op` one of `> < >= <=`); the host compares.
    fn comp_op<H: Host>(&self, host: &mut H, v1: String, v2: String, op: &str) -> (r: Result<Token, String>)
        ensures
            !(is_number_text(v1@) && is_number_text(v2@)) ==> (r matches Ok(t) && t.view() == udf_view()),
            r matches Ok(t) ==> t.view() == udf_view() || t.view() == lit_view(bool_text(true))
                || t.view() == lit_view(bool_text(false)),
    {
        if !(pattern_found(NUMBER_RE_PAT, v1.as_str()) && pattern_found(NUMBER_RE_PAT, v2.as_str())) {
            return Ok(self.__fault());
        }
        match host.compare(op, v1.as_str(), v2.as_str()) {
            None => Err("invalid number".to_owned()),
            Some(b) => {
                if str_eq(op, ">") || str_eq(op, "<") || str_eq(op, ">=") || str_eq(op, "<=") {
                    Ok(Self::bool_token(b))
                } else {
                    Ok(self.__fault())
                }
            },
        }
    }

    /// `v1 operand v2` for any operator; the undefined token for an unknown one.
    fn operation<H: Host>(&self, host: &mut H, operand: &str, v1: String, v2: String) -> (r: Result<Token, String>)
        ensures
            operand@.len() == 1 && is_arith_op(operand@[0]) ==> agrees(r, arith_outcome(operand@[0], v1@, v2@)),
            operand@ == "&&"@ && lit_truth(v1@) is Some && lit_truth(v2@) is Some
                ==> (r matches Ok(t) && t.view() == lit_view(bool_text(lit_truth(v1@).unwrap() && lit_truth(v2@).unwrap()))),
            operand@ == "||"@ && lit_truth(v1@) is Some && lit_truth(v2@) is Some
                ==> (r matches Ok(t) && t.view() == lit_view(bool_text(lit_truth(v1@).unwrap() || lit_truth(v2@).unwrap()))),
            comparison_op(operand@) && !(is_number_text(v1@) && is_number_text(v2@)) ==> (r matches Ok(t) && t.view() == udf_view()),
            comparison_op(operand@) ==> (r matches Ok(t) ==> t.view() == lit_view(bool_text(true))
                || t.view() == lit_view(bool_text(false)) || t.view() == udf_view()),
            !(operand@.len() == 1 && is_arith_op(operand@[0])) && operand@ != "&&"@ && operand@ != "||"@
                && !comparison_op(operand@) ==> (r matches Ok(t) && t.view() == udf_view()),
    {
        proof {
            reveal_strlit("&&");
            reveal_strlit("||");
            reveal_strlit(">");
            reveal_strlit("<");
            reveal_strlit(">=");
            reveal_strlit("<=");
        }
        let c = chars_of(operand);
        if c.len() == 1 {
            let op = c[0];
            if op == '+' {
                return self.addition(host, v1, v2);
            } else if op == '-' {
                return self.subtraction(host, v1, v2);
            } else if op == '*' {
                return self.multiplication(host, v1, v2);
            } else if op == '/' {
                return self.division(host, v1, v2);
            } else if op == '&' {
                return self.bin_and(host, v1, v2);
            } else if op == '|' {
                return self.bin_or(host, v1, v2);
            } else if op == '%' {
                return self.modulo_op(host, v1, v2);
            } else if op == '^' {
                return self.bin_xor(host, v1, v2);
            }
        }
        if str_eq(operand, "&&") {
            self.log_and(host, v1, v2)
        } else if str_eq(operand, "||") {
            self.log_or(host, v1, v2)
        } else if str_eq(operand, ">") || str_eq(operand, "<") || str_eq(operand, ">=") || str_eq(operand, "<=") {
            self.comp_op(host, v1, v2, operand)
        } else {
            Ok(self.__fault())
        }
    }

    /// `v1 op= v2`: the operation named by the first character of `operand`.
    fn assignment_operation<H: Host>(&self, host: &mut H, operand: &str, v1: String, v2: String) -> (r: Result<Token, String>)
        ensures
            operand@.len() == 0 ==> r is Err,
            operand@.len() > 0 && is_arith_op(operand@[0]) ==> agrees(r, arith_outcome(operand@[0], v1@, v2@)),
    {
        let c = chars_of(operand);
        if c.len() == 0 {
            return Err("empty operator".to_owned());
        }
        let mut first: Vec<char> = Vec::new();
        first.push(c[0]);
        let op = string_of(&first);
        assert(op@ =~= seq![c@[0]]);
        self.operation(host, op.as_str(), v1, v2)
    }
}


impl Parser {
    /// Writes `value` to `name` as the memory's flags direct; fails where the name is
    /// flagged for an enclosing scope and none is open.
    fn assign(&mut self, name: &str, value: Token) -> (r: Result<(), String>)
        requires
            old(self).inv(),
        ensures
            final(self).inv(),
            final(self).memory_view().depth() == old(self).memory_view().depth(),
            r is Ok ==> final(self).memory_view() == old(self).memory_view().assign(name@, value.view()),
            r is Ok <==> assignable(old(self).memory_view(), name@),
            r is Err ==> final(self).memory_view() == old(self).memory_view(),
            Parser::keeps_program_and_output(*old(self), *final(self)),
            final(self).module_count() == old(self).module_count(),
    {
        if self.memory.find_gv(copy_str(name)) != 1 && self.memory.find_flag(copy_str(name)) == 5
            && self.memory.scope_count() < 2 {
            return Err("no enclosing scope".to_owned());
        }
        proof {
            crate::laws::law_scopes_depth_kept(self.memory.view(), name@, value.view());
        }
        self.memory.set(name, value);
        Ok(())
    }

    /// Opens a new innermost scope.
    fn open_scope(&mut self) -> (r: Result<(), String>)
        requires
            old(self).inv(),
        ensures
            final(self).inv(),
            r is Ok ==> final(self).memory_view() == old(self).memory_view().with_new_scope(),
            r is Err ==> final(self).memory_view() == old(self).memory_view(),
            r is Err <==> old(self).memory_view().depth() >= usize::MAX - 1,
            Parser::keeps_program_and_output(*old(self), *final(self)),
    {
        if self.memory.scope_count() >= usize::MAX - 1 {
            return Err("too many scopes".to_owned());
        }
        self.memory.new_scope();
        Ok(())
    }

    /// Closes the innermost scope.
    fn close_scope(&mut self)
        requires
            old(self).inv(),
            old(self).memory_view().depth() >= 2,
        ensures
            final(self).inv(),
            final(self).memory_view() == old(self).memory_view().without_top_scope(),
            Parser::keeps_program_and_output(*old(self), *final(self)),
            final(self).module_count() == old(self).module_count(),
    {
        self.memory.rem_scope();
    }

    /// What reading `name` gives.
    fn lookup(&self, name: &str) -> (r: Token)
        requires
            self.inv(),
        ensures
            r.view() == self.memory_view().lookup(name@),
    {
        self.memory.get(name)
    }

    /// Follows a reference (its `$` dropped) through the memory until a value that is no
    /// reference; the undefined token where a name comes back (see `chase`).
    fn deref(&self, t: Token, fuel: u64) -> (r: Result<Token, String>)
        requires
            self.inv(),
        ensures
            match chase(self.memory_view(), TokenView { value: dollar_dropped(t.value@), ..t.view() }, Seq::empty(), fuel as nat) {
                Some(v) => r matches Ok(x) && x.view() == v,
                None => r is Err,
            },
    {
        let ghost m = self.memory_view();
        let ghost goal = chase(m, TokenView { value: dollar_dropped(t.value@), ..t.view() }, Seq::empty(), fuel as nat);
        let mut cur = t;
        if starts_with_char(cur.value.as_str(), '$') {
            cur.value = without_first(cur.value.as_str());
        }
        assert(cur.view() == TokenView { value: dollar_dropped(t.value@), ..t.view() });
        let mut names: Vec<String> = Vec::new();
        assert(texts(names@) =~= Seq::<Seq<char>>::empty());
        self.chase_from(cur, names, fuel)
    }

    /// Goes on following references from `cur`, the names in `names` already passed.
    fn chase_from(&self, cur: Token, names: Vec<String>, fuel: u64) -> (r: Result<Token, String>)
        requires
            self.inv(),
        ensures
            match chase(self.memory_view(), cur.view(), texts(names@), fuel as nat) {
                Some(v) => r matches Ok(x) && x.view() == v,
                None => r is Err,
            },
    {
        let ghost m = self.memory_view();
        let ghost goal = chase(m, cur.view(), texts(names@), fuel as nat);
        let mut c = cur;
        let mut passed = names;
        let mut budget = fuel;
        loop
            invariant
                self.inv(),
                m == self.memory_view(),
                goal == chase(m, cur.view(), texts(names@), fuel as nat),
                goal == chase(m, c.view(), texts(passed@), budget as nat),
            decreases budget,
        {
            let ghost seen = texts(passed@);
            if c.id != crate::statics::REF {
                return Ok(c);
            }
            let mut k: usize = 0;
            while k < passed.len()
                invariant
                    k <= passed.len(),
                    seen == texts(passed@),
                    c.id == crate::statics::REF,
                    m == self.memory_view(),
                    goal == chase(m, cur.view(), texts(names@), fuel as nat),
                    goal == chase(m, c.view(), seen, budget as nat),
                    forall|j: int| 0 <= j < k ==> seen[j] != c.value@,
                decreases passed.len() - k,
            {
                if str_eq(passed[k].as_str(), c.value.as_str()) {
                    assert(seen[k as int] == c.value@);
                    assert(seen.contains(c.value@));
                    return Ok(self.__fault());
                }
                k += 1;
            }
            assert(!seen.contains(c.value@));
            let ghost v = c.value@;
            passed.push(copy_str(c.value.as_str()));
            assert(texts(passed@) =~= seen.push(v));
            c = self.lookup(c.value.as_str());
            if budget == 0 {
                return Err(limit_reached());
            }
            budget -= 1;
        }
    }

    /// The value of `t`: itself when it is no reference, else the value its name (its
    /// `$` dropped) leads to through the memory (see `chase`); an empty name fails.
    fn derefb(&self, t: &Token, fuel: u64) -> (r: Result<Token, String>)
        requires
            self.inv(),
        ensures
            match derefb_view(self.memory_view(), t.view(), fuel as nat) {
                Some(v) => r matches Ok(x) && x.view() == v,
                None => r is Err,
            },
    {
        if t.id != crate::statics::REF {
            return Ok(t.clone());
        }
        if chars_of(t.value.as_str()).len() == 0 {
            return Err("empty name".to_owned());
        }
        let n = if starts_with_char(t.value.as_str(), '$') {
            without_first(t.value.as_str())
        } else {
            copy_str(t.value.as_str())
        };
        assert(n@ == dollar_dropped(t.value@));
        let mut names: Vec<String> = Vec::new();
        names.push(copy_str(n.as_str()));
        assert(texts(names@) =~= seq![n@]);
        let r = self.lookup(n.as_str());
        self.chase_from(r, names, fuel)
    }

    /// The tokens whose kinds are not blocked from token dumps (see `dump_kept`); fails
    /// on a token of no known kind.
    #[verifier::loop_isolation(false)]
    fn __filter(&self, tokens: &Vec<Token>) -> (r: Result<Vec<Token>, String>)
        ensures
            r is Ok <==> (forall|j: int| 0 <= j < tokens@.len() ==> #[trigger] tokens@[j].id <= crate::statics::PTR),
            r matches Ok(v) ==> views(v@) == dump_kept(views(tokens@), self.token_block@),
    {
        let mut r: Vec<Token> = Vec::new();
        let mut k: usize = 0;
        proof {
            lemma_views(tokens@);
            lemma_views(r@);
            assert(views(tokens@).take(0) =~= Seq::<TokenView>::empty());
            assert(views(r@) =~= Seq::<TokenView>::empty());
        }
        while k < tokens.len()
            invariant
                k <= tokens.len(),
                forall|j: int| 0 <= j < k ==> #[trigger] tokens@[j].id <= crate::statics::PTR,
                views(r@) == dump_kept(views(tokens@).take(k as int), self.token_block@),
            decreases tokens.len() - k,
        {
            proof {
                lemma_views(tokens@);
                lemma_views(r@);
            }
            if tokens[k].id > crate::statics::PTR {
                return Err("unknown token kind".to_owned());
            }
            let name = crate::statics::token_array(tokens[k].id);
            let blocked = match self.token_block.get(name) {
                Some(b) => *b,
                None => false,
            };
            let ghost before = r@;
            let ghost tv = views(tokens@);
            assert(tv.take(k + 1).drop_last() =~= tv.take(k as int));
            assert(tv.take(k + 1).last() == tokens@[k as int].view());
            if !blocked {
                let t = tokens[k].clone();
                r.push(t);
                proof {
                    lemma_push_view_parser(before, t);
                }
            }
            k += 1;
        }
        assert(views(tokens@).take(tokens.len() as int) =~= views(tokens@));
        Ok(r)
    }
}


impl Parser {
    /// Prints the values of a `print` statement that starts at `tokens[i]`: values are
    /// separated by `,` tokens (the separator text printed between them), and the
    /// statement ends at a newline token or the end; then the line ends are printed.
    /// Gives where it stopped. A statement whose values are expressions that
    /// `expr_view` reads prints them as `print_out` says.
    #[verifier::loop_isolation(false)]
    fn printop<H: Host>(&mut self, host: &mut H, i: usize, tokens: &Vec<Token>, fuel: u64) -> (r: Result<usize, String>)
        requires
            old(self).inv(),
        ensures
            final(self).inv(),
            final(self).memory_view().depth() == old(self).memory_view().depth(),
            ({
                let s = views(tokens@);
                let j = next_newline(s, i + 1);
                let out = print_out(old(self).memory_view(), s, i + 1, j, old(self).printing().separator());
                i + 1 < tokens.len() && tokens.len() < usize::MAX - 2 && fuel > 2 * tokens.len() + 4 && out is Some
                ==> r == Ok::<usize, String>(if j < tokens.len() { j as usize } else { (tokens.len() + 1) as usize })
                    && final(self).output() == old(self).output() + out.unwrap()
                        + seq![repeated("\n"@, old(self).meta_terminating_newlines as nat)]
                    && final(self).printing() == old(self).printing()
                    && final(self).memory_view() == old(self).memory_view()
                    && final(self).module_count() == old(self).module_count()
                    && final(self).program() == old(self).program()
            }),
        decreases fuel, 0nat,
    {
        let ghost sv = views(tokens@);
        let ghost prog0 = self.program();
        let ghost p = i as int;
        let ghost jn = next_newline(sv, p + 1);
        let ghost o0 = self.output();
        let ghost nl0 = self.meta_terminating_newlines;
        let ghost pr0 = self.printing();
        let ghost sep0 = self.printing().separator();
        let ghost m0 = self.memory_view();
        let ghost mods0 = self.modules;
        let ghost total = print_out(m0, sv, p + 1, jn, sep0);
        let ghost good = p + 1 < tokens.len() && tokens.len() < usize::MAX - 2 && fuel > 2 * tokens.len() + 4
            && total is Some;
        proof {
            lemma_views(tokens@);
            if good {
                lemma_next_newline(sv, p + 1);
            }
        }
        if fuel == 0 {
            return Err(limit_reached());
        }
        if i >= usize::MAX - 2 || tokens.len() >= usize::MAX - 2 {
            return Err("too many tokens".to_owned());
        }
        let ghost d0 = self.memory_view().depth();
        let mut i = i + 1;
        let l = tokens.len();
        if i > l {
            let ends = repeat_text("\n", self.meta_terminating_newlines);
            self.emit(host, ends.as_str());
            return Ok(i);
        }
        let mut new_arg_ready = true;
        let mut budget = fuel;
        let ghost mut a: int = p + 1;
        let ghost mut acc: Seq<Seq<char>> = Seq::empty();
        let ghost mut phase: int = 0;
        proof {
            if good {
                assert(acc + total.unwrap() =~= total.unwrap());
                assert(o0 + acc =~= o0);
            }
        }
        loop
            invariant
                self.inv(),
                self.memory_view().depth() == d0,
                l == tokens.len(),
                l < usize::MAX - 2,
                1 <= i <= l + 1,
                fuel > 0,
                sv == views(tokens@),
                good ==> self.meta_terminating_newlines == nl0 && self.memory_view() == m0 && self.modules == mods0
                    && self.program() == prog0 && self.printing() == pr0 && self.printing().separator() == sep0,
                good ==> p + 1 <= a <= jn && jn <= l && budget as int >= fuel - 2 * (i - p),
                good ==> phase == 0 ==> new_arg_ready && i as int == a && self.output() == o0 + acc
                    && print_out(m0, sv, a, jn, sep0) is Some && acc + print_out(m0, sv, a, jn, sep0).unwrap() == total.unwrap(),
                good ==> phase == 1 ==> ({
                    let f = next_sep(sv, a, jn);
                    let pv = printed(expr_value(m0, sv.subrange(a, f)).unwrap()).unwrap();
                    &&& print_out(m0, sv, a, jn, sep0) is Some
                    &&& acc + print_out(m0, sv, a, jn, sep0).unwrap() == total.unwrap()
                    &&& !new_arg_ready
                    &&& a < f
                    &&& i as int == (if f == jn && jn == l { l + 1 } else { f })
                    &&& self.output() == o0 + acc.push(pv)
                    &&& f < jn ==> print_out(m0, sv, f + 1, jn, sep0) is Some
                        && acc.push(pv).push(sep0) + print_out(m0, sv, f + 1, jn, sep0).unwrap() == total.unwrap()
                    &&& f == jn ==> acc.push(pv) == total.unwrap()
                }),
                good ==> phase == 0 || phase == 1,
            decreases budget,
        {
            if budget == 0 {
                return Err(limit_reached());
            }
            budget -= 1;
            proof {
                if good {
                    lemma_next_sep(sv, a, jn);
                    lemma_print_out_step(m0, sv, a, jn, sep0);
                }
            }
            if i >= l {
                break;
            }
            let token = tokens[i].clone();
            proof {
                if good {
                    lemma_next_sep(sv, a, jn);
                    lemma_print_out_step(m0, sv, a, jn, sep0);
                    if phase == 0 {
                        lemma_expr_tokens(m0, sv.subrange(a, next_sep(sv, a, jn)));
                        assert(sv.subrange(a, next_sep(sv, a, jn))[0] == sv[a]);
                        assert(token.view() == sv[a]);
                    }
                    if phase == 1 {
                        let f = next_sep(sv, a, jn);
                        if f < jn {
                            assert(is_sep(sv[f]));
                        } else {
                            assert(sv[jn].id == crate::statics::NLN);
                        }
                    }
                }
            }
            if token.id == crate::statics::NLN {
                break;
            }
            if token == self.SEPTOK {
                new_arg_ready = true;
                i += 1;
                let sep = repeat_text(self.meta_print_sep_value.as_str(), self.meta_print_sep_spaces);
                let ghost pva = printed(expr_value(m0, sv.subrange(a, next_sep(sv, a, jn))).unwrap()).unwrap();
                self.emit(host, sep.as_str());
                proof {
                    if good {
                        let f = next_sep(sv, a, jn);
                        acc = acc.push(pva).push(sep0);
                        a = f + 1;
                        phase = 0;
                        assert(self.output() == o0 + acc);
                    }
                }
                continue;
            }
            if new_arg_ready {
                new_arg_ready = false;
                let mut toks: Vec<Token> = Vec::new();
                let mut depth: usize = 0;
                let start = i;
                let ghost fa = next_sep(sv, a, jn);
                loop
                    invariant
                        1 <= start <= i <= l,
                        start < l,
                        l == tokens.len(),
                        sv == views(tokens@),
                        self.inv(),
                        good ==> phase == 0 && start as int == a && fa == next_sep(sv, a, jn) && i as int <= fa
                            && depth == 0 && views(toks@) == sv.subrange(a, i as int),
                    decreases l - i,
                {
                    if i >= l {
                        break;
                    }
                    let t = tokens[i].clone();
                    proof {
                        if good {
                            lemma_next_sep(sv, a, jn);
                            lemma_next_newline(sv, p + 1);
                            lemma_print_out_step(m0, sv, a, jn, sep0);
                            assert(t.view() == sv[i as int]);
                            if (i as int) < fa {
                                lemma_expr_tokens(m0, sv.subrange(a, fa));
                                assert(sv.subrange(a, fa)[i - a] == sv[i as int]);
                                assert(expr_token(sv[i as int]));
                            } else if fa < jn {
                                assert(is_sep(sv[i as int]));
                            } else {
                                assert(sv[i as int].id == crate::statics::NLN);
                            }
                        }
                    }
                    if t.id == crate::statics::NLN {
                        if i > start {
                            i -= 1;
                        }
                        break;
                    }
                    if t.id == crate::statics::PAR {
                        if str_eq(t.value.as_str(), "(") {
                            if depth == usize::MAX {
                                return Err("too deep".to_owned());
                            }
                            depth += 1;
                        } else if str_eq(t.value.as_str(), ")") {
                            if depth == 0 {
                                return Err("unbalanced parentheses".to_owned());
                            }
                            depth -= 1;
                        }
                    }
                    if t == self.SEPTOK && depth == 0 {
                        if i > start {
                            i -= 1;
                        }
                        break;
                    }
                    let ghost before = toks@;
                    toks.push(t);
                    proof {
                        lemma_push_view_parser(before, t);
                        if good {
                            assert(sv.subrange(a, i + 1) =~= sv.subrange(a, i as int).push(sv[i as int]));
                        }
                    }
                    i += 1;
                }
                proof {
                    if good {
                        lemma_next_sep(sv, a, jn);
                        lemma_print_out_step(m0, sv, a, jn, sep0);
                        assert(views(toks@) == sv.subrange(a, fa));
                        assert(toks.len() == fa - a) by {
                            lemma_views(toks@);
                        }
                        lemma_expr_view_lit(m0, sv.subrange(a, fa));
                    }
                }
                let mut copt = match self.eval_exp(host, toks, fuel - 1) {
                    Ok(t) => t,
                    Err(e) => {
                        return Err(e);
                    },
                };
                if copt.id == crate::statics::REF {
                    copt = match self.deref(copt, fuel) {
                        Ok(t) => t,
                        Err(e) => {
                            return Err(e);
                        },
                    };
                }
                let b = chars_of(copt.value.as_str());
                if b.len() == 0 {
                    return Err("empty value".to_owned());
                }
                let mut v = copy_str(copt.value.as_str());
                if b[0] == '"' && b[b.len() - 1] == '"' {
                    v = match quoted_inner_exec(copt.value.as_str()) {
                        Some(x) => string_of(&x),
                        None => {
                            return Err("invalid string".to_owned());
                        },
                    };
                }
                proof {
                    if good {
                        assert(v@ == printed(expr_value(m0, sv.subrange(a, fa)).unwrap()).unwrap());
                    }
                }
                self.LOG.log(crate::text::joined("print component: ", v.as_str()));
                self.emit(host, v.as_str());
                proof {
                    phase = 1;
                }
            }
            i += 1;
        }
        proof {
            if good {
                assert(phase == 1);
            }
        }
        let ends = repeat_text("\n", self.meta_terminating_newlines);
        self.emit(host, ends.as_str());
        Ok(i)
    }

    /// Prints the scopes a `dumpscope` statement at `tokens[i]` names (`0`, `1`, or `2`
    /// for all). Gives the position of the name.
    #[verifier::loop_isolation(false)]
    fn dumpscope<H: Host>(&mut self, host: &mut H, i: usize, tokens: &Vec<Token>) -> (r: Result<usize, String>)
        requires
            old(self).inv(),
        ensures
            final(self).inv(),
            final(self).memory_view() == old(self).memory_view(),
            final(self).program() == old(self).program(),
            final(self).printing() == old(self).printing(),
            final(self).module_count() == old(self).module_count(),
            old(self).output().len() <= final(self).output().len(),
            final(self).output().subrange(0, old(self).output().len() as int) == old(self).output(),
            r matches Ok(n) ==> n == i + 1,
            !(i < usize::MAX - 1 && i + 1 < tokens.len()) ==> r is Err,
            ({
                let v = tokens@[i + 1].value@;
                let m = old(self).memory_view();
                let known = forall|x: int, k: Seq<char>| 0 <= x < m.depth() && #[trigger] m.scopes[x].contains_key(k)
                    ==> m.scopes[x][k].id <= crate::statics::PTR;
                i < usize::MAX - 1 && i + 1 < tokens.len() ==> {
                    &&& v != "0"@ && v != "1"@ && v != "2"@ ==> r == Ok::<usize, String>((i + 1) as usize) && *final(self) == *old(self)
                    &&& v == "0"@ ==> (r is Ok <==> 0 < m.depth() && known)
                    &&& v == "1"@ ==> (r is Ok <==> 1 < m.depth() && known)
                    &&& v == "2"@ ==> (r is Ok <==> known)
                }
            }),
    {
        proof {
            reveal_strlit("0");
            reveal_strlit("1");
            reveal_strlit("2");
            assert("0"@ != "1"@ && "0"@ != "2"@ && "1"@ != "2"@) by {
                assert("0"@[0] != "1"@[0] && "0"@[0] != "2"@[0] && "1"@[0] != "2"@[0]);
            }
        }
        let ghost o0 = self.output();
        let ghost self0 = *self;
        if i >= usize::MAX - 1 {
            return Err("too many tokens".to_owned());
        }
        let i = i + 1;
        let c = match token_at(tokens, i) {
            Ok(t) => t,
            Err(e) => {
                return Err(e);
            },
        };
        let sid: usize = if str_eq(c.value.as_str(), "0") {
            0
        } else if str_eq(c.value.as_str(), "1") {
            1
        } else if str_eq(c.value.as_str(), "2") {
            2
        } else {
            return Ok(i);
        };
        if sid != 2 && sid >= self.memory.scope_count() {
            return Err("no such scope".to_owned());
        }
        if !self.memory.kinds_known() {
            return Err("unknown token kind".to_owned());
        }
        let dumps = self.memory.dump(sid);
        let ghost m0 = self.memory_view();
        let mut k: usize = 0;
        while k < dumps.len()
            invariant
                k <= dumps.len(),
                self.inv(),
                self.memory_view() == m0,
                *self == (Parser { written: self.written, ..self0 }),
                o0.len() <= self.output().len(),
                self.output().subrange(0, o0.len() as int) == o0,
            decreases dumps.len() - k,
        {
            let lines = &dumps[k];
            let mut j: usize = 0;
            while j < lines.len()
                invariant
                    j <= lines.len(),
                    self.inv(),
                    self.memory_view() == m0,
                    *self == (Parser { written: self.written, ..self0 }),
                    o0.len() <= self.output().len(),
                    self.output().subrange(0, o0.len() as int) == o0,
                decreases lines.len() - j,
            {
                if j == 0 {
                    let ghost before = self.output();
                    self.emit(host, "\n");
                    assert(self.output().subrange(0, o0.len() as int) =~= before.subrange(0, o0.len() as int));
                }
                let ln = line_of(lines[j].as_str());
                let ghost before = self.output();
                self.emit(host, ln.as_str());
                assert(self.output().subrange(0, o0.len() as int) =~= before.subrange(0, o0.len() as int));
                j += 1;
            }
            k += 1;
        }
        Ok(i)
    }

    /// Binds the parameters of the function `t` to the arguments `atoks` (separated by
    /// separator tokens) in the innermost scope, then runs the function's tokens.
    #[verifier::rlimit(60)]
    #[verifier::spinoff_prover]
    #[verifier::loop_isolation(false)]
    fn call_in_scope<H: Host>(&mut self, host: &mut H, t: &Vec<Token>, atoks: &Vec<Token>, fuel: u64) -> (r: Result<Token, String>)
        requires
            old(self).inv(),
        ensures
            final(self).inv(),
            final(self).memory_view().depth() == old(self).memory_view().depth(),
            fuel == 0 ==> r is Err,
            ({
                let rb = call_run(views(t@), views(atoks@), old(self).memory_view(), old(self).printing(), (fuel - 1) as nat);
                fuel >= 1 && fuel > atoks.len() + 1 && old(self).memory_view().depth() >= 1 && rb is Some
                ==> r is Ok && r.unwrap().view() == (match rb.unwrap().3 { Some(v) => v, None => udf_view() })
                    && final(self).output() == old(self).output() + rb.unwrap().0
                    && final(self).memory_view() == rb.unwrap().1 && final(self).printing() == rb.unwrap().2
            }),
        decreases fuel, 0nat,
    {
        if fuel == 0 {
            return Err(limit_reached());
        }
        let ghost d0 = self.memory_view().depth();
        let ghost self0 = *self;
        let ghost tv = views(t@);
        let ghost av = views(atoks@);
        let ghost m0 = self.memory_view();
        let ghost good = fuel > atoks.len() + 1 && d0 >= 1
            && call_run(tv, av, m0, self.printing(), (fuel - 1) as nat) is Some;
        proof {
            lemma_views(t@);
            lemma_views(atoks@);
        }
        let mut j: usize = 0;
        let k = t.len();
        let mut o: usize = 0;
        let p = atoks.len();
        while j < k
            invariant
                self.inv(),
                self.memory_view().depth() == d0,
                k == t.len(),
                p == atoks.len(),
                o <= p,
                fuel > 0,
                tv == views(t@),
                av == views(atoks@),
                good ==> bound_args(self.memory_view(), tv, av, j as int, o as int) == bound_args(m0, tv, av, 0, 0),
                good ==> self.output() == self0.output() && self.printing() == self0.printing(),
            decreases k - j,
        {
            if is_star(&t[j]) {
                break;
            }
            if t[j].id == crate::statics::SEP {
                j += 1;
                continue;
            }
            let vname = copy_str(t[j].value.as_str());
            let ghost mj = self.memory_view();
            let ghost oj = o as int;
            self.memory.flag_var(copy_str(vname.as_str()), 0u8);
            let ghost m1 = self.memory_view();
            proof {
                assert(vname@ == tv[j as int].value);
                assert(m1 == flagged(mj, tv[j as int].value, 0));
                lemma_next_arg_end(av, oj);
            }
            let mut atoksn: Vec<Token> = Vec::new();
            let ghost mut cut: int = p as int;
            proof {
                lemma_views(atoksn@);
                assert(views(atoksn@) =~= av.subrange(oj, oj));
            }
            while o < p
                invariant
                    p == atoks.len(),
                    av == views(atoks@),
                    oj <= o <= p,
                    cut == p,
                    views(atoksn@) == av.subrange(oj, o as int),
                    forall|q: int| oj <= q < o ==> (#[trigger] av[q]).id != crate::statics::SEP,
                decreases p - o,
            {
                if atoks[o].id == crate::statics::SEP {
                    proof {
                        cut = o as int;
                    }
                    o += 1;
                    break;
                }
                let x = atoks[o].clone();
                let ghost before = atoksn@;
                atoksn.push(x);
                proof {
                    lemma_push_view_parser(before, x);
                    assert(av.subrange(oj, o + 1) =~= av.subrange(oj, o as int).push(av[o as int]));
                }
                o += 1;
            }
            proof {
                lemma_views(atoks@);
                if cut == p {
                    assert(o == p);
                } else {
                    assert(av[cut] == atoks@[cut].view());
                    assert(av[cut].id == crate::statics::SEP);
                }
                let e = next_arg_end(av, oj);
                if e < p {
                    assert(av[e].id == crate::statics::SEP);
                }
                assert(cut == next_arg_end(av, oj));
                assert(views(atoksn@) == av.subrange(oj, cut));
                assert(o as int == (if cut < av.len() { cut + 1 } else { cut }));
                if good {
                    assert(tv[j as int] == t@[j as int].view());
                    assert(tv[j as int].id != crate::statics::SEP);
                    assert(bound_args(mj, tv, av, j as int, oj) is Some);
                    assert(arg_value(m1, av.subrange(oj, cut)) is Some);
                    assert(assignable(m1, tv[j as int].value));
                    lemma_views(atoksn@);
                    assert(atoksn.len() < fuel - 1);
                    assert(self.memory_view() == m1);
                }
            }
            let v = match self.eval_exp(host, atoksn, fuel - 1) {
                Ok(v) => v,
                Err(e) => {
                    return Err(e);
                },
            };
            match self.assign(vname.as_str(), v) {
                Ok(_) => {},
                Err(e) => {
                    return Err(e);
                },
            }
            j += 1;
        }
        let body = crate::statics::copy_tokens(t);
        self.eval(host, body, fuel - 1)
    }

    /// Calls the function before the `(` at `tokens[i]`: its arguments, up to the
    /// matching `)`, are taken out, the function token gives way to its result, and the
    /// function runs in a scope of its own. Gives `i`.
    #[verifier::rlimit(60)]
    #[verifier::spinoff_prover]
    #[verifier::loop_isolation(false)]
    fn func_call<H: Host>(&mut self, host: &mut H, i: usize, tokens: &mut Vec<Token>, fuel: u64) -> (r: Result<usize, String>)
        requires
            old(self).inv(),
        ensures
            final(self).inv(),
            final(self).memory_view().depth() == old(self).memory_view().depth(),
            r matches Ok(n) ==> n == i,
            fuel == 0 || i == 0 || i > old(tokens).len() ==> r is Err,
            ({
                let s = views(old(tokens)@);
                let d = derefb_view(old(self).memory_view(), s[i - 1], fuel as nat);
                1 <= i <= s.len() && (d is None || d.unwrap().list is None)
                ==> r is Err && final(tokens)@ == old(tokens)@ && *final(self) == *old(self)
            }),
            ({
                let s = views(old(tokens)@);
                let c = first_par(s, i + 1);
                let d = derefb_view(old(self).memory_view(), s[i - 1], fuel as nat);
                let cr = call_run(d.unwrap().list.unwrap(), s.subrange(i + 1, c), old(self).memory_view().with_new_scope(),
                    old(self).printing(), (fuel - 2) as nat);
                1 <= i < c < s.len() && s[i as int].id == crate::statics::PAR && s[i as int].value == "("@ && s[c].value == ")"@
                && d is Some && d.unwrap().list is Some && old(self).memory_view().depth() < usize::MAX - 1
                && fuel > c - i + 2 && cr is Some
                ==> r == Ok::<usize, String>(i)
                    && views(final(tokens)@) == s.subrange(0, i - 1)
                        + seq![match cr.unwrap().3 { Some(v) => v, None => udf_view() }] + s.subrange(c + 1, s.len() as int)
                    && final(self).output() == old(self).output() + cr.unwrap().0
                    && final(self).memory_view() == cr.unwrap().1.without_top_scope()
                    && final(self).printing() == cr.unwrap().2
            }),
        decreases fuel, 0nat,
    {
        proof {
            lemma_views(tokens@);
        }
        if fuel == 0 {
            return Err(limit_reached());
        }
        if i == 0 {
            return Err("call without a function".to_owned());
        }
        let f = match token_at(tokens, i - 1) {
            Ok(t) => t,
            Err(e) => {
                return Err(e);
            },
        };
        let fd = match self.derefb(&f, fuel) {
            Ok(t) => t,
            Err(e) => {
                return Err(e);
            },
        };
        let t: Vec<Token> = match &fd.list {
            Some(l) => crate::statics::copy_tokens(l),
            None => {
                return Err("not a function".to_owned());
            },
        };
        let ghost s0 = tokens@;
        let ghost sv = views(s0);
        let ghost c = first_par(sv, i + 1);
        let ghost good = i < c < sv.len() && sv[i as int].id == crate::statics::PAR && sv[i as int].value == "("@
            && sv[c].value == ")"@ && fuel > c - i + 2;
        proof {
            lemma_views(s0);
            if i < sv.len() {
                lemma_first_par_from(sv, i + 1);
            }
            lemma_views(Seq::<Token>::empty());
        }
        let mut depth: i32 = 0;
        let mut atoks: Vec<Token> = Vec::new();
        let mut budget = fuel;
        loop
            invariant
                good ==> depth == 0 ==> tokens@ == s0 && atoks@.len() == 0 && budget == fuel,
                good ==> depth != 0 ==> ({
                    let n = atoks@.len() as int;
                    &&& depth == 1
                    &&& n <= c - i - 1
                    &&& views(tokens@) == sv.subrange(0, i as int) + sv.subrange(i + 1 + n, sv.len() as int)
                    &&& views(atoks@) == sv.subrange(i + 1, i + 1 + n)
                    &&& budget == fuel - 1 - n
                }),
            decreases budget,
        {
            proof {
                lemma_views(tokens@);
                lemma_views(atoks@);
                reveal_strlit("(");
                reveal_strlit(")");
                if good && depth != 0 {
                    let n = atoks@.len() as int;
                    assert(tokens@.len() == i + sv.len() - i - 1 - n);
                    assert(views(tokens@)[i as int] == sv[i + 1 + n]);
                    assert(tokens@[i as int].view() == sv[i + 1 + n]);
                    if i + 1 + n < c {
                        assert(sv[i + 1 + n].id != crate::statics::PAR);
                    }
                }
                if good && depth == 0 {
                    assert(tokens@ == s0);
                    assert(views(s0)[i as int] == s0[i as int].view());
                    assert(tokens@[i as int].view() == sv[i as int]);
                    assert("("@[0] != ")"@[0]);
                }
            }
            let ghost tb = tokens@;
            let ghost ab = atoks@;
            if budget == 0 {
                return Err(limit_reached());
            }
            budget -= 1;
            if i >= tokens.len() {
                break;
            }
            if tokens[i].id == crate::statics::PAR {
                if str_eq(tokens[i].value.as_str(), ")") {
                    if depth == i32::MIN {
                        return Err("too deep".to_owned());
                    }
                    depth -= 1;
                    if depth == 0 {
                        break;
                    }
                    atoks.push(tokens.remove(i));
                } else if str_eq(tokens[i].value.as_str(), "(") {
                    if depth == i32::MAX {
                        return Err("too deep".to_owned());
                    }
                    depth += 1;
                    if depth > 1 {
                        atoks.push(tokens.remove(i));
                    } else {
                        tokens.remove(i);
                    }
                }
            } else {
                atoks.push(tokens.remove(i));
            }
            proof {
                if good {
                    let n = ab.len() as int;
                    lemma_views(tokens@);
                    lemma_views(atoks@);
                    lemma_views(tb);
                    lemma_views(ab);
                    if depth == 1 && ab.len() == 0 && tb == s0 {
                        assert(views(tokens@) =~= sv.subrange(0, i as int) + sv.subrange(i + 1, sv.len() as int));
                        assert(views(atoks@) =~= sv.subrange(i + 1, i + 1));
                    } else {
                        assert(tokens@ == tb.remove(i as int));
                        assert(atoks@ == ab.push(tb[i as int]));
                        let want = sv.subrange(0, i as int) + sv.subrange(i + 2 + n, sv.len() as int);
                        assert(views(tokens@).len() == want.len());
                        assert forall|x: int| 0 <= x < want.len() implies #[trigger] views(tokens@)[x] == want[x] by {
                            if x < i {
                                assert(views(tokens@)[x] == tb[x].view());
                                assert(views(tb)[x] == tb[x].view());
                            } else {
                                assert(views(tokens@)[x] == tb[x + 1].view());
                                assert(views(tb)[x + 1] == tb[x + 1].view());
                            }
                        }
                        assert(views(tokens@) =~= want);
                        assert(views(tb)[i as int] == tb[i as int].view());
                        assert(views(atoks@) =~= sv.subrange(i + 1, i + 2 + n));
                    }
                }
            }
        }
        let ghost m_old = self.memory_view();
        let ghost p_old = self.printing();
        let ghost o_old = self.output();
        proof {
            if good {
                lemma_views(tokens@);
                lemma_views(atoks@);
                let n = atoks@.len() as int;
                assert(depth == 0 && i < tokens.len());
                assert(views(tokens@)[i as int] == sv[i + 1 + n]);
                assert(tokens@[i as int].view() == sv[i + 1 + n]);
                assert(n == c - i - 1);
                assert(views(atoks@) == sv.subrange(i + 1, c));
                assert(views(t@) == fd.view().list.unwrap());
            }
        }
        let ghost tk = tokens@;
        match take_at(tokens, i - 1) {
            Ok(_) => {},
            Err(e) => {
                return Err(e);
            },
        }
        proof {
            if good {
                lemma_views(tokens@);
                lemma_views(tk);
                let want = sv.subrange(0, i - 1) + sv.subrange(c, sv.len() as int);
                assert(tokens@ == tk.remove(i - 1));
                assert(views(tokens@).len() == want.len());
                assert forall|x: int| 0 <= x < want.len() implies #[trigger] views(tokens@)[x] == want[x] by {
                    if x < i - 1 {
                        assert(views(tokens@)[x] == tk[x].view());
                        assert(views(tk)[x] == tk[x].view());
                    } else {
                        assert(views(tokens@)[x] == tk[x + 1].view());
                        assert(views(tk)[x + 1] == tk[x + 1].view());
                    }
                }
                assert(views(tokens@) =~= want);
            }
        }
        match self.open_scope() {
            Ok(_) => {},
            Err(e) => {
                return Err(e);
            },
        }
        let res = self.call_in_scope(host, &t, &atoks, fuel - 1);
        self.close_scope();
        let res = match res {
            Ok(v) => v,
            Err(e) => {
                return Err(e);
            },
        };
        let ghost tk2 = tokens@;
        if tokens.len() > i - 1 {
            tokens.set(i - 1, res);
        } else {
            tokens.push(res);
        }
        proof {
            if good {
                lemma_views(tokens@);
                lemma_views(tk2);
                let want = sv.subrange(0, i - 1) + seq![res.view()] + sv.subrange(c + 1, sv.len() as int);
                assert(views(tokens@).len() == want.len());
                assert forall|x: int| 0 <= x < want.len() implies #[trigger] views(tokens@)[x] == want[x] by {
                    if x != i - 1 {
                        assert(views(tokens@)[x] == tk2[x].view());
                        assert(views(tk2)[x] == tk2[x].view());
                    }
                }
                assert(views(tokens@) =~= want);
            }
        }
        Ok(i)
    }

    /// Applies the operator `toks[i]`: the operand after it (the tokens up to the next
    /// operator or newline) is evaluated and put back in its place, and the operator
    /// combines `copt` with it. Gives the tokens, the position after the operand and the
    /// value reached.
    #[verifier::loop_isolation(false)]
    fn operator_step<H: Host>(&mut self, host: &mut H, toks: Vec<Token>, i: usize, copt: Token, fuel: u64)
        -> (r: Result<(Vec<Token>, usize, Token), String>)
        requires
            old(self).inv(),
            1 <= i < toks.len(),
            fuel >= 1,
        ensures
            final(self).inv(),
            final(self).memory_view().depth() == old(self).memory_view().depth(),
            r matches Ok((t2, i2, c2)) ==> i2 == i + 1,
            ({
                let op = toks@[i as int].view();
                fuel >= 2 && i + 1 < toks.len() && toks@[i + 1].id == LIT && copt.id == LIT
                && (i + 2 == toks.len() || toks@[i + 2].id == crate::statics::MAT || toks@[i + 2].id == crate::statics::LOG)
                && op.value.len() == 1 && is_arith_op(op.value[0])
                ==> match arith_outcome(op.value[0], copt.value@, toks@[i + 1].value@) {
                    Outcome::Value(v) => r matches Ok((t2, i2, c2)) && views(t2@) == views(toks@) && c2.view() == lit_view(v)
                        && *final(self) == *old(self),
                    _ => true,
                }
            }),
        decreases fuel, 0nat,
    {
        let ghost t0 = toks@;
        let ghost pattern = fuel >= 2 && i + 1 < toks.len() && toks@[i + 1].id == LIT && copt.id == LIT
            && (i + 2 == toks.len() || toks@[i + 2].id == crate::statics::MAT || toks@[i + 2].id == crate::statics::LOG);
        let mut toks = toks;
        let mut i = i;
        let ghost ii = i + 1;
        i += 1;
        let mut optoks: Vec<Token> = Vec::new();
        while i < toks.len()
            invariant
                i as int == ii,
                pattern ==> (optoks@.len() == 0 && toks@ == t0)
                    || (optoks@.len() == 1 && optoks@[0] == t0[ii] && toks@ == t0.remove(ii)),
            decreases toks.len(),
        {
            proof {
                if pattern && optoks@.len() == 1 {
                    assert(toks@[i as int] == t0[ii + 1]);
                }
            }
            if toks[i].id == crate::statics::NLN || toks[i].id == crate::statics::MAT || toks[i].id == crate::statics::LOG {
                break;
            }
            optoks.push(toks.remove(i));
        }
        proof {
            if pattern {
                assert(optoks@.len() == 1);
            }
        }
        let ghost lit_in = if optoks@.len() > 0 { optoks@[0] } else { copt };
        let rr = match self.eval_exp(host, optoks, fuel - 1) {
            Ok(t) => t,
            Err(e) => {
                return Err(e);
            },
        };
        if i > toks.len() {
            return Err("index out of bounds".to_owned());
        }
        toks.insert(i, rr);
        proof {
            if pattern {
                assert(rr.view() == lit_in.view());
                assert(toks@ =~= t0.remove(ii).insert(ii, rr));
                lemma_views(toks@);
                lemma_views(t0);
                assert(views(toks@) =~= views(t0));
            }
        }
        i -= 1;
        let dc = match self.derefb(&copt, fuel) {
            Ok(t) => t,
            Err(e) => {
                return Err(e);
            },
        };
        let op = match token_at(&toks, i) {
            Ok(t) => t,
            Err(e) => {
                return Err(e);
            },
        };
        let v2 = match token_at(&toks, i + 1) {
            Ok(t) => t,
            Err(e) => {
                return Err(e);
            },
        };
        proof {
            if pattern {
                lemma_views(toks@);
                lemma_views(t0);
                assert(op.view() == t0[i as int].view());
                assert(v2.view() == t0[i + 1].view());
            }
        }
        let c2 = match self.operation(host, op.value.as_str(), dc.value, v2.value) {
            Ok(t) => t,
            Err(e) => {
                return Err(e);
            },
        };
        Ok((toks, i + 1, c2))
    }

    /// Evaluates the member after the dot `toks[i]` on the value before it, where the
    /// value has such a member: the call is made and its result takes the place of the
    /// value, the dot and the member. Gives the tokens, the position reached, the value
    /// reached and whether the tokens changed.
    #[verifier::loop_isolation(false)]
    fn member_step<H: Host>(&mut self, host: &mut H, toks: Vec<Token>, i: usize, copt: Token, fuel: u64)
        -> (r: Result<(Vec<Token>, usize, Token, bool), String>)
        requires
            old(self).inv(),
            i >= 1,
            fuel >= 1,
        ensures
            final(self).inv(),
            final(self).memory_view().depth() == old(self).memory_view().depth(),
            r matches Ok((t2, i2, c2, u)) ==> (!u ==> t2@ == toks@ && i2 == i && c2 == copt),
            i + 1 >= toks.len() ==> r is Err,
            ({
                let s = views(toks@);
                let k = i as int;
                let pd = derefb_view(old(self).memory_view(), s[k - 1], fuel as nat);
                k + 1 < s.len() && pd is Some
                && (pd.unwrap().data_type == crate::statics::DT_OBJ ==> pd.unwrap().dict is Some)
                && !names_member(old(self).BINDINGS.view(), pd.unwrap(), s[k + 1].value)
                ==> r is Ok && !r.unwrap().3 && *final(self) == *old(self)
            }),
            ({
                let s = views(toks@);
                let k = i as int;
                let pd = derefb_view(old(self).memory_view(), s[k - 1], fuel as nat);
                r is Ok ==> (r.unwrap().3 <==> (pd is Some && names_member(old(self).BINDINGS.view(), pd.unwrap(), s[k + 1].value)))
            }),
        decreases fuel, 0nat,
    {
        proof {
            lemma_views(toks@);
        }
        let mut toks = toks;
        let mut i = i;
        let mut copt = copt;
        let mut updated = false;
        let prev = match token_at(&toks, i - 1) {
            Ok(t) => t,
            Err(e) => {
                return Err(e);
            },
        };
        if i == usize::MAX {
            return Err("index out of bounds".to_owned());
        }
        let next = match token_at(&toks, i + 1) {
            Ok(t) => t,
            Err(e) => {
                return Err(e);
            },
        };
        let pd = match self.derefb(&prev, fuel) {
            Ok(t) => t,
            Err(e) => {
                return Err(e);
            },
        };
        if pd.data_type == crate::statics::DT_OBJ && pd.dict.is_none() {
            return Err("invalid object".to_owned());
        }
        if self.BINDINGS.check_valid(&pd, next.value.as_str()) {
            let oi = i - 1;
            let (ni, tok, ntoks) = match self.execute(host, toks.clone(), i, fuel - 1) {
                Ok(x) => x,
                Err(e) => {
                    return Err(e);
                },
            };
            toks = ntoks;
            i = ni;
            if i == 0 {
                return Err("index out of bounds".to_owned());
            }
            match put_at(&mut toks, i - 1, tok) {
                Ok(_) => {},
                Err(e) => {
                    return Err(e);
                },
            }
            copt = toks[i - 1].clone();
            match take_at(&mut toks, i) {
                Ok(_) => {},
                Err(e) => {
                    return Err(e);
                },
            }
            match take_at(&mut toks, i) {
                Ok(_) => {},
                Err(e) => {
                    return Err(e);
                },
            }
            i -= 1;
            while oi < i
                decreases i,
            {
                match take_at(&mut toks, oi) {
                    Ok(_) => {},
                    Err(e) => {
                        return Err(e);
                    },
                }
                i -= 1;
            }
            updated = true;
        }
        Ok((toks, i, copt, updated))
    }

    /// Indexes the value before the index `cur` (at `toks[i]`) with the index's value:
    /// the element of a list, the entry of a dictionary, else the value itself, which
    /// takes the place of the value and the index. Gives the tokens and the value reached.
    #[verifier::loop_isolation(false)]
    fn index_step<H: Host>(&mut self, host: &mut H, toks: Vec<Token>, i: usize, cur: &Token, copt: Token, fuel: u64)
        -> (r: Result<(Vec<Token>, Token), String>)
        requires
            old(self).inv(),
            i >= 1,
            fuel >= 1,
        ensures
            final(self).inv(),
            final(self).memory_view().depth() == old(self).memory_view().depth(),
            cur.list is None ==> r is Err,
            ({
                let s = views(toks@);
                let k = i as int;
                let m = old(self).memory_view();
                let e = cur.view().list.unwrap();
                let pd = derefb_view(m, s[k - 1], fuel as nat);
                k < s.len() && cur.list is Some && expr_view(m, e) is Some && fuel > e.len() + 1
                && pd is Some && pd.unwrap().id != crate::statics::LST && pd.unwrap().id != crate::statics::DCT
                ==> r is Ok && views(r.unwrap().0@) == s.remove(k).update(k - 1, pd.unwrap())
                    && r.unwrap().1.view() == pd.unwrap() && *final(self) == *old(self)
            }),
        decreases fuel, 0nat,
    {
        proof {
            lemma_views(toks@);
            if cur.list is Some {
                lemma_views(cur.list.unwrap()@);
            }
        }
        let ghost s0 = views(toks@);
        let mut toks = toks;
        let mut copt = copt;
        let tl = match &cur.list {
            Some(x) => crate::statics::copy_tokens(x),
            None => {
                return Err("invalid index".to_owned());
            },
        };
        proof {
            lemma_views(tl@);
            assert(views(tl@) == cur.view().list.unwrap());
            assert(views(tl@).len() == tl@.len());
        }
        let t = match self.eval_exp(host, tl, fuel - 1) {
            Ok(t) => t,
            Err(e) => {
                return Err(e);
            },
        };
        match take_at(&mut toks, i) {
            Ok(_) => {},
            Err(e) => {
                return Err(e);
            },
        }
        proof {
            lemma_views(toks@);
            assert(views(toks@) =~= s0.remove(i as int));
            if (i as int) < s0.len() {
                assert(views(toks@)[i - 1] == s0[i - 1]);
            }
        }
        let prev = match token_at(&toks, i - 1) {
            Ok(t) => t,
            Err(e) => {
                return Err(e);
            },
        };
        let pd = match self.derefb(&prev, fuel) {
            Ok(t) => t,
            Err(e) => {
                return Err(e);
            },
        };
        let got = if pd.id == crate::statics::LST {
            if !is_well_made(&pd) {
                return Err("invalid list".to_owned());
            }
            let idx = match parse_usize_str(t.value.as_str()) {
                Some(n) => n,
                None => {
                    return Err("invalid index".to_owned());
                },
            };
            match pd.get(idx) {
                Ok(x) => x,
                Err(e) => {
                    return Err(e);
                },
            }
        } else if pd.id == crate::statics::DCT {
            if !is_well_made(&pd) {
                return Err("invalid dictionary".to_owned());
            }
            match pd.getd(t.value) {
                Ok(x) => x,
                Err(e) => {
                    return Err(e);
                },
            }
        } else {
            pd
        };
        let ghost s1 = views(toks@);
        match put_at(&mut toks, i - 1, got) {
            Ok(_) => {},
            Err(e) => {
                return Err(e);
            },
        }
        proof {
            lemma_views(toks@);
            assert(views(toks@) =~= s1.update(i - 1, got.view()));
        }
        copt = toks[i - 1].clone();
        Ok((toks, copt))
    }

    /// The tokens with each reference marked `$` followed through the memory (see
    /// `deref`); fails on a reference with an empty name.
    fn deref_marked(&self, toks: Vec<Token>, fuel: u64) -> (r: Result<Vec<Token>, String>)
        requires
            self.inv(),
        ensures
            r matches Ok(v) ==> v.len() == toks.len(),
            (forall|j: int| 0 <= j < toks.len() ==> (#[trigger] toks@[j]).id != crate::statics::REF)
                ==> (r matches Ok(v) && v@ == toks@),
            fuel >= 1 && resolved(self.memory_view(), views(toks@)) is Some
                ==> (r matches Ok(v) && views(v@) == resolved(self.memory_view(), views(toks@)).unwrap()),
    {
        let ghost t_in = toks@;
        let ghost m = self.memory_view();
        let ghost plain = forall|j: int| 0 <= j < t_in.len() ==> (#[trigger] t_in[j]).id != crate::statics::REF;
        let ghost res = fuel >= 1 && resolved(m, views(t_in)) is Some;
        proof {
            lemma_views(t_in);
        }
        let mut out = toks;
        let mut i: usize = 0;
        while i < out.len()
            invariant
                self.inv(),
                m == self.memory_view(),
                t_in == toks@,
                out.len() == t_in.len(),
                plain == (forall|j: int| 0 <= j < t_in.len() ==> (#[trigger] t_in[j]).id != crate::statics::REF),
                plain ==> out@ == t_in,
                res == (fuel >= 1 && resolved(m, views(t_in)) is Some),
                res ==> forall|j: int| 0 <= j < i ==> (#[trigger] out@[j]).view() == resolve_one(m, t_in[j].view()).unwrap(),
                res ==> forall|j: int| i <= j < out.len() ==> #[trigger] out@[j] == t_in[j],
            decreases out.len() - i,
        {
            proof {
                lemma_views(t_in);
                if plain {
                    assert(t_in[i as int].id != crate::statics::REF);
                }
                if res {
                    assert(views(t_in)[i as int] == t_in[i as int].view());
                    assert(resolve_one(m, t_in[i as int].view()) is Some);
                }
            }
            let ghost before = out@;
            if out[i].id == crate::statics::REF {
                if out[i].value.as_str().is_empty() {
                    return Err("empty name".to_owned());
                }
                if starts_with_char(out[i].value.as_str(), '$') {
                    proof {
                        if res {
                            lemma_chase_one(m, TokenView { value: dollar_dropped(t_in[i as int].value@), ..t_in[i as int].view() }, fuel as nat);
                        }
                    }
                    let d = match self.deref(out[i].clone(), fuel) {
                        Ok(t) => t,
                        Err(e) => {
                            return Err(e);
                        },
                    };
                    out.set(i, d);
                }
            }
            i += 1;
        }
        proof {
            if res {
                lemma_views(out@);
                assert(views(out@) =~= resolved(m, views(t_in)).unwrap());
            }
        }
        Ok(out)
    }

    /// Evaluates an expression: references marked `$` are followed first; then, from
    /// left to right, values are read, each operator applies the value so far and the
    /// operand after it (up to the next operator), so operators group from the left;
    /// members, indexes, calls and built-ins are evaluated. Gives the value last reached.
    #[verifier::rlimit(100)]
    #[verifier::spinoff_prover]
    #[verifier::loop_isolation(false)]
    fn eval_exp<H: Host>(&mut self, host: &mut H, toks: Vec<Token>, fuel: u64) -> (r: Result<Token, String>)
        requires
            old(self).inv(),
        ensures
            final(self).inv(),
            final(self).memory_view().depth() == old(self).memory_view().depth(),
            toks.len() == 0 ==> (r matches Ok(t) && t.view() == udf_view()) && *final(self) == *old(self),
            fuel > 0 && toks.len() == 1 && toks@[0].id != crate::statics::REF ==> (r matches Ok(t) && t.view() == toks@[0].view())
                && *final(self) == *old(self),
            expr_view(old(self).memory_view(), views(toks@)) is Some && fuel > toks.len()
                ==> (r matches Ok(t) && t.view() == expr_view(old(self).memory_view(), views(toks@)).unwrap())
                    && *final(self) == *old(self),
            toks.len() >= 2 && toks@[0].id == crate::statics::KEY && fuel > toks.len()
                && headed_view(old(self).memory_view(), views(toks@).skip(1)) is Some
                ==> (r matches Ok(t) && t.view() == headed_view(old(self).memory_view(), views(toks@).skip(1)).unwrap())
                    && *final(self) == *old(self),
        decreases fuel, 1nat,
    {
        if toks.len() == 0 {
            assert(expr_view(self.memory_view(), views(toks@)) is None) by {
                reveal(expr_view);
            }
            return Ok(self.__fault());
        }
        if fuel == 0 {
            return Err(limit_reached());
        }
        let ghost d0 = self.memory_view().depth();
        let ghost t_in = toks@;
        let ghost rv = resolved(self.memory_view(), views(t_in));
        let ghost vin = rv.unwrap();
        let ghost flat = expr_view(self.memory_view(), views(t_in)) is Some && fuel > t_in.len();
        proof {
            lemma_views(t_in);
            if flat {
                assert(rv is Some && flat_expr(vin) && vin.len() == t_in.len()
                    && flat_view(vin, (t_in.len() - 1) / 2) == expr_view(self.memory_view(), views(t_in))) by {
                    reveal(expr_view);
                }
            }
        }
        let ghost plain = forall|j: int| 0 <= j < t_in.len() ==> (#[trigger] t_in[j]).id != crate::statics::REF;
        let ghost single = t_in.len() == 1 && t_in[0].id != crate::statics::REF;
        let ghost s0 = *self;
        let ghost headed = t_in.len() >= 2 && t_in[0].id == crate::statics::KEY && fuel > t_in.len()
            && headed_view(self.memory_view(), views(t_in).skip(1)) is Some;
        let ghost hv = headed_view(self.memory_view(), views(t_in).skip(1));
        let ghost fv = seq![lead_view(self.memory_view(), views(t_in)[1]).unwrap()] + vin.skip(2);
        proof {
            lemma_views(t_in);
            if headed {
                lemma_headed_parts(self.memory_view(), views(t_in), fuel as nat);
                assert(views(t_in)[0].id == crate::statics::KEY);
            }
        }
        let mut toks = match self.deref_marked(toks, fuel) {
            Ok(t) => t,
            Err(e) => {
                return Err(e);
            },
        };
        proof {
            if flat {
                lemma_views(toks@);
                assert(vin.len() == t_in.len());
            }
            if headed {
                lemma_views(toks@);
                lemma_headed_parts(self.memory_view(), views(t_in), fuel as nat);
                lemma_headed_view(self.memory_view(), views(t_in).skip(1));
            }
        }
        let mut i: usize = 1;
        let mut copt = toks[0].clone();
        let mut l = toks.len();
        let mut budget = fuel;
        let ghost mut steps: int = 0;
        proof {
            if flat {
                lemma_flat_view_prefix(vin, (t_in.len() - 1) / 2, 0);
            }
        }
        loop
            invariant
                self.inv(),
                self.memory_view().depth() == d0,
                fuel > 0,
                i >= 1,
                flat ==> views(toks@) == vin && toks.len() == t_in.len() && l == toks.len(),
                flat ==> i as int == 2 * steps + 1 && i <= l && budget as int == fuel - steps,
                flat ==> copt.id == LIT && flat_view(vin, steps) == Some(copt.view()),
                single ==> budget == fuel && i == 1 && l == 1 && copt.view() == t_in[0].view(),
                flat || single || headed ==> *self == s0,
                headed ==> views(toks@) == vin && toks.len() == t_in.len() && l == toks.len(),
                headed && i == 1 ==> steps == 0 && budget == fuel,
                headed && i != 1 ==> i as int == 2 * steps + 2 && i <= l && budget as int == fuel - steps - 1
                    && flat_view(fv, steps) == Some(copt.view()) && (fv.len() > 1 ==> copt.id == LIT),
            decreases budget,
        {
            if budget == 0 {
                return Err(limit_reached());
            }
            budget -= 1;
            if i >= l {
                break;
            }
            proof {
                if flat {
                    lemma_views(toks@);
                    assert(vin[i as int] == toks@[i as int].view());
                    lemma_flat_view_prefix(vin, (t_in.len() - 1) / 2, steps + 1);
                }
                if headed {
                    lemma_views(toks@);
                    lemma_headed_parts(s0.memory_view(), views(t_in), fuel as nat);
                    assert(vin[i as int] == toks@[i as int].view());
                    if i != 1 {
                        lemma_headed_op(lead_view(s0.memory_view(), views(t_in)[1]).unwrap(), vin, i as int, steps, copt.view());
                    }
                }
            }
            let cur = match token_at(&toks, i) {
                Ok(t) => t,
                Err(e) => {
                    return Err(e);
                },
            };
            proof {
                if flat {
                    assert(cur.view() == vin[i as int]);
                    assert((i as int) % 2 == 1);
                    assert(cur.id == crate::statics::MAT || cur.id == crate::statics::LOG);
                }
                if headed && i != 1 {
                    assert(cur.view() == vin[i as int]);
                }
            }
            if cur.id == LIT || cur.id == crate::statics::REF {
                copt = match self.derefb(&cur, fuel) {
                    Ok(t) => t,
                    Err(e) => {
                        return Err(e);
                    },
                };
                proof {
                    if headed {
                        assert(i == 1);
                        assert(copt.view() == fv[0]);
                        assert(flat_view(fv, 0) == Some(fv[0]));
                    }
                }
            } else if cur.id == crate::statics::MAT || cur.id == crate::statics::LOG {
                proof {
                    if flat {
                        lemma_views(toks@);
                        assert(i as int + 1 < toks.len());
                        assert(vin[i as int + 1] == toks@[i as int + 1].view());
                        assert(toks@[i as int + 1].id == LIT);
                        if (i as int) + 2 < toks@.len() {
                            assert(vin[i as int + 2] == toks@[i as int + 2].view());
                        }
                        assert(2 * (steps + 1) - 1 == i as int);
                        assert(2 * (steps + 1) == i as int + 1);
                        assert(toks@[i as int].view() == vin[i as int]);
                        assert(flat_view(vin, steps + 1) == match arith_outcome(vin[i as int].value[0], copt.value@, vin[i as int + 1].value) {
                            Outcome::Value(v) => Some(lit_view(v)),
                            _ => None,
                        });
                    }
                    if headed {
                        lemma_views(toks@);
                        let ii = i as int;
                        assert(toks@[ii].view() == vin[ii]);
                        assert(toks@[ii + 1].view() == vin[ii + 1]);
                        if ii + 2 < toks@.len() {
                            assert(toks@[ii + 2].view() == vin[ii + 2]);
                        }
                    }
                }
                let (t2, i2, c2) = match self.operator_step(host, toks, i, copt, fuel) {
                    Ok(x) => x,
                    Err(e) => {
                        return Err(e);
                    },
                };
                toks = t2;
                i = i2;
                copt = c2;
                proof {
                    steps = steps + 1;
                    if flat {
                        lemma_views(toks@);
                        assert(toks.len() == t_in.len());
                        assert(views(toks@) == vin);
                        assert(flat_view(vin, steps) == Some(copt.view()));
                    }
                    if headed {
                        lemma_views(toks@);
                        assert(views(toks@) == vin);
                        assert(flat_view(fv, steps) == Some(copt.view()));
                    }
                }
                l = toks.len();
            } else if cur.id == crate::statics::DOT {
                let (t2, i2, c2, updated) = match self.member_step(host, toks, i, copt, fuel) {
                    Ok(x) => x,
                    Err(e) => {
                        return Err(e);
                    },
                };
                toks = t2;
                i = i2;
                copt = c2;
                if updated {
                    l = toks.len();
                }
            } else if cur.id == crate::statics::IDX {
                let (t2, c2) = match self.index_step(host, toks, i, &cur, copt, fuel) {
                    Ok(x) => x,
                    Err(e) => {
                        return Err(e);
                    },
                };
                toks = t2;
                copt = c2;
            } else if cur.id == crate::statics::PAR && str_eq(cur.value.as_str(), "(") && i > 0 && i - 1 < toks.len()
                && (toks[i - 1].id == crate::statics::REF || toks[i - 1].id == crate::statics::FUN) {
                i = match self.func_call(host, i, &mut toks, fuel - 1) {
                    Ok(n) => n,
                    Err(e) => {
                        return Err(e);
                    },
                };
                if i == 0 {
                    return Err("index out of bounds".to_owned());
                }
                i -= 1;
                copt = match token_at(&toks, i) {
                    Ok(t) => t,
                    Err(e) => {
                        return Err(e);
                    },
                };
                l = toks.len();
            } else if cur.id == crate::statics::BND {
                i = match self.binding_execution(host, i, &mut toks, fuel - 1) {
                    Ok(n) => n,
                    Err(e) => {
                        return Err(e);
                    },
                };
                copt = match token_at(&toks, i) {
                    Ok(t) => t,
                    Err(e) => {
                        return Err(e);
                    },
                };
                l = toks.len();
            }
            if i == usize::MAX {
                return Err("index out of bounds".to_owned());
            }
            i += 1;
        }
        proof {
            if headed {
                lemma_headed_parts(s0.memory_view(), views(t_in), fuel as nat);
                assert(steps == (fv.len() - 1) / 2);
            }
        }
        Ok(copt)
    }

    /// The list of a control token (followed through references).
    fn block_of(&self, t: &Token, fuel: u64) -> (r: Result<Vec<Token>, String>)
        requires
            self.inv(),
        ensures
            match derefb_view(self.memory_view(), t.view(), fuel as nat) {
                Some(d) => match d.list {
                    Some(l) => r matches Ok(b) && views(b@) == l,
                    None => r is Err,
                },
                None => r is Err,
            },
    {
        let d = match self.derefb(t, fuel) {
            Ok(x) => x,
            Err(e) => {
                return Err(e);
            },
        };
        match &d.list {
            Some(l) => Ok(crate::statics::copy_tokens(l)),
            None => Err("invalid block".to_owned()),
        }
    }

    /// The tokens of `t` up to its first `*` separator.
    #[verifier::loop_isolation(false)]
    fn header_of(t: &Vec<Token>) -> (r: Vec<Token>)
        ensures
            views(r@) == views(t@).take(first_star(views(t@), 0)),
    {
        let mut ls: Vec<Token> = Vec::new();
        let mut ind: usize = 0;
        proof {
            lemma_views(t@);
            lemma_views(ls@);
            assert(views(ls@) =~= views(t@).take(0));
        }
        while ind < t.len()
            invariant
                ind <= t.len(),
                views(ls@) == views(t@).take(ind as int),
                first_star(views(t@), 0) == first_star(views(t@), ind as int),
            decreases t.len() - ind,
        {
            proof {
                lemma_views(t@);
            }
            if is_star(&t[ind]) {
                break;
            }
            let ghost before = ls@;
            let c = t[ind].clone();
            ls.push(c);
            proof {
                lemma_push_view_parser(before, c);
                assert(views(t@).take(ind + 1) =~= views(t@).take(ind as int).push(t@[ind as int].view()));
            }
            ind += 1;
        }
        ls
    }

    /// Runs the body `t` of a `for` loop once for each whole number from `start` up to
    /// (not including) `end`, bound to `vname`, until a `break`.
    #[verifier::rlimit(60)]
    #[verifier::spinoff_prover]
    #[verifier::loop_isolation(false)]
    fn for_body<H: Host>(&mut self, host: &mut H, t: &Vec<Token>, vname: &str, start: i64, end: i64, fuel: u64) -> (r: Result<(), String>)
        requires
            old(self).inv(),
        ensures
            final(self).inv(),
            final(self).memory_view().depth() == old(self).memory_view().depth(),
            fuel == 0 ==> r is Err,
            ({
                let fr = for_run(views(t@), vname@, start as int, end as int, flagged_top(old(self).memory_view(), vname@, 0),
                    old(self).printing(), (fuel - 1) as nat);
                fuel >= 1 && fr is Some ==> r is Ok && final(self).output() == old(self).output() + fr.unwrap().0
                    && final(self).memory_view() == fr.unwrap().1 && final(self).printing() == fr.unwrap().2
            }),
        decreases fuel, 0nat,
    {
        reveal(run_block);
        reveal(for_run);
        if fuel == 0 {
            return Err(limit_reached());
        }
        let ghost d0 = self.memory_view().depth();
        let ghost b = views(t@);
        let ghost o0 = self.output();
        self.memory.flag_var(copy_str(vname), 0u8);
        let ghost good = for_run(b, vname@, start as int, end as int, self.memory_view(), self.printing(), (fuel - 1) as nat) is Some;
        let ghost total = for_run(b, vname@, start as int, end as int, self.memory_view(), self.printing(), (fuel - 1) as nat).unwrap();
        proof {
            if good {
                assert(o0 + Seq::<Seq<char>>::empty() =~= o0);
            }
        }
        let mut start = start;
        while start < end
            invariant
                self.inv(),
                self.memory_view().depth() == d0,
                fuel > 0,
                b == views(t@),
                good ==> ({
                    let fr = for_run(b, vname@, start as int, end as int, self.memory_view(), self.printing(), (fuel - 1) as nat);
                    &&& fr is Some
                    &&& self.output() + fr.unwrap().0 == o0 + total.0
                    &&& fr.unwrap().1 == total.1
                    &&& fr.unwrap().2 == total.2
                }),
            decreases end - start,
        {
            let ghost ob = self.output();
            let v = lit_token(i64_to_string(start));
            match self.assign(vname, v) {
                Ok(_) => {},
                Err(e) => {
                    return Err(e);
                },
            }
            let body = crate::statics::copy_tokens(t);
            let r = match self.eval(host, body, fuel - 1) {
                Ok(x) => x,
                Err(e) => {
                    return Err(e);
                },
            };
            proof {
                reveal_strlit("UDF");
                reveal_strlit("BREAK");
                if good {
                    let m1 = self.memory_view();
                    let fr2 = for_run(b, vname@, start + 1, end as int, m1, self.printing(), (fuel - 1) as nat);
                    assert(self.output() + fr2.unwrap().0 =~= ob + (self.output().subrange(ob.len() as int, self.output().len() as int) + fr2.unwrap().0));
                    assert(self.output() =~= ob + self.output().subrange(ob.len() as int, self.output().len() as int));
                }
            }
            if r.id == crate::statics::SIG && str_eq(r.value.as_str(), "BREAK") {
                break;
            }
            start += 1;
        }
        proof {
            if good {
                assert(self.output() + Seq::<Seq<char>>::empty() =~= self.output());
            }
        }
        Ok(())
    }

    /// Runs the `for` loop at `tokens[i]`: its header names the variable, then the
    /// range `from .. to`; the token before the loop is taken out. Gives `i`.
    #[verifier::loop_isolation(false)]
    #[verifier::rlimit(100)]
    #[verifier::spinoff_prover]
    fn eval_for_loop<H: Host>(&mut self, host: &mut H, i: usize, tokens: &mut Vec<Token>, fuel: u64) -> (r: Result<usize, String>)
        requires
            old(self).inv(),
        ensures
            final(self).inv(),
            final(self).memory_view().depth() == old(self).memory_view().depth(),
            r matches Ok(n) ==> n == i,
            fuel == 0 || i == 0 || i >= old(tokens).len() ==> r is Err,
            r is Ok ==> views(final(tokens)@) == views(old(tokens)@).remove(i - 1),
            ({
                let s = views(old(tokens)@);
                let k = i as int;
                let b = s[k].list.unwrap();
                let m = old(self).memory_view();
                let h = for_header(b).unwrap();
                let lo = loop_bound(m, h.1);
                let hi = loop_bound(m, h.2);
                let fr = for_run(b, h.0, lo.unwrap(), hi.unwrap(), flagged_top(m.with_new_scope(), h.0, 0),
                    old(self).printing(), (fuel - 2) as nat);
                1 <= k < s.len() && s[k].id == crate::statics::CTL && s[k].list is Some && fuel >= 2
                && for_header(b) is Some && lo is Some && hi is Some && fuel > h.1.len() + 1 && fuel > h.2.len() + 1
                && m.depth() < usize::MAX - 1 && fr is Some
                ==> r == Ok::<usize, String>(i) && final(self).output() == old(self).output() + fr.unwrap().0
                    && final(self).memory_view() == fr.unwrap().1.without_top_scope() && final(self).printing() == fr.unwrap().2
            }),
        decreases fuel, 0nat,
    {
        proof {
            lemma_views(tokens@);
        }
        let ghost s0 = views(tokens@);
        if fuel == 0 {
            return Err(limit_reached());
        }
        let cur = match token_at(tokens, i) {
            Ok(t) => t,
            Err(e) => {
                return Err(e);
            },
        };
        let t = match self.block_of(&cur, fuel) {
            Ok(x) => x,
            Err(e) => {
                return Err(e);
            },
        };
        let ghost b = views(t@);
        let ghost m0 = self.memory_view();
        let (vname, ls) = match for_parts(&t) {
            Ok(x) => x,
            Err(e) => {
                return Err(e);
            },
        };
        let (ls1, ls2) = range_parts(&ls);
        proof {
            lemma_views(ls1@);
            lemma_views(ls2@);
            if for_header(b) is Some {
                let lv = views(ls@);
                lemma_first_range_from(lv, 0);
                assert(views(ls1@) == for_header(b).unwrap().1);
                assert(views(ls2@) == for_header(b).unwrap().2);
                assert(vname@ == for_header(b).unwrap().0);
            }
        }
        let v1 = match self.eval_exp(host, ls1, fuel - 1) {
            Ok(x) => x,
            Err(e) => {
                return Err(e);
            },
        };
        let v2 = match self.eval_exp(host, ls2, fuel - 1) {
            Ok(x) => x,
            Err(e) => {
                return Err(e);
            },
        };
        proof {
            if fuel >= 2 && (i as int) < s0.len() && s0[i as int].id == crate::statics::CTL && s0[i as int].list is Some {
                assert(b == s0[i as int].list.unwrap());
            }
        }
        let start: i64 = match parse_i64_str(v1.value.as_str()) {
            Some(n) => n,
            None => 0,
        };
        let end: i64 = match parse_i64_str(v2.value.as_str()) {
            Some(n) => n,
            None => 0,
        };
        if i == 0 {
            return Err("index out of bounds".to_owned());
        }
        match take_at(tokens, i - 1) {
            Ok(_) => {},
            Err(e) => {
                return Err(e);
            },
        }
        proof {
            lemma_views(tokens@);
            assert(views(tokens@) =~= s0.remove(i - 1));
        }
        match self.open_scope() {
            Ok(_) => {},
            Err(e) => {
                return Err(e);
            },
        }
        let res = self.for_body(host, &t, vname.as_str(), start, end, fuel - 1);
        self.close_scope();
        match res {
            Ok(_) => Ok(i),
            Err(e) => Err(e),
        }
    }

    /// Whether the condition `ls` holds: its value, read as a condition reads it.
    fn header_holds<H: Host>(&mut self, host: &mut H, ls: &Vec<Token>, fuel: u64) -> (r: Result<bool, String>)
        requires
            old(self).inv(),
        ensures
            final(self).inv(),
            final(self).memory_view().depth() == old(self).memory_view().depth(),
            cond_truth(old(self).memory_view(), views(ls@)) is Some && fuel > ls.len()
                ==> r == Ok::<bool, String>(cond_truth(old(self).memory_view(), views(ls@)).unwrap()) && *final(self) == *old(self),
        decreases fuel, 2nat,
    {
        let header = crate::statics::copy_tokens(ls);
        proof {
            lemma_views(ls@);
            lemma_views(header@);
        }
        let c = match self.eval_exp(host, header, fuel) {
            Ok(x) => x,
            Err(e) => {
                return Err(e);
            },
        };
        self.truth_of(host, &c)
    }

    /// Runs the body `t` of a `while` loop as long as its header `ls` holds, until a
    /// `break`.
    #[verifier::rlimit(100)]
    #[verifier::spinoff_prover]
    fn while_body<H: Host>(&mut self, host: &mut H, t: &Vec<Token>, ls: &Vec<Token>, fuel: u64) -> (r: Result<(), String>)
        requires
            old(self).inv(),
        ensures
            final(self).inv(),
            final(self).memory_view().depth() == old(self).memory_view().depth(),
            fuel == 0 ==> r is Err,
            ({
                let wr = while_run(views(t@), views(ls@), old(self).memory_view(), old(self).printing(), (fuel - 1) as nat,
                    fuel as nat);
                fuel >= 1 && wr is Some ==> r is Ok && final(self).output() == old(self).output() + wr.unwrap().0
                    && final(self).memory_view() == wr.unwrap().1 && final(self).printing() == wr.unwrap().2
            }),
        decreases fuel, 0nat,
    {
        if fuel == 0 {
            return Err(limit_reached());
        }
        let ghost d0 = self.memory_view().depth();
        let ghost b = views(t@);
        let ghost h = views(ls@);
        let ghost o0 = self.output();
        let ghost good = while_run(b, h, self.memory_view(), self.printing(), (fuel - 1) as nat, fuel as nat) is Some;
        let ghost total = while_run(b, h, self.memory_view(), self.printing(), (fuel - 1) as nat, fuel as nat).unwrap();
        proof {
            lemma_views(ls@);
            if good {
                assert(o0 + Seq::<Seq<char>>::empty() =~= o0);
            }
        }
        let mut budget = fuel;
        loop
            invariant_except_break
                good ==> ({
                    let wr = while_run(b, h, self.memory_view(), self.printing(), (fuel - 1) as nat, budget as nat);
                    &&& wr is Some
                    &&& self.output() + wr.unwrap().0 == o0 + total.0
                    &&& wr.unwrap().1 == total.1
                    &&& wr.unwrap().2 == total.2
                }),
            invariant
                self.inv(),
                self.memory_view().depth() == d0,
                fuel > 0,
                b == views(t@),
                h == views(ls@),
                h.len() == ls@.len(),
                budget <= fuel,
                d0 == old(self).memory_view().depth(),
                o0 == old(self).output(),
                good == (while_run(b, h, old(self).memory_view(), old(self).printing(), (fuel - 1) as nat, fuel as nat) is Some),
                total == while_run(b, h, old(self).memory_view(), old(self).printing(), (fuel - 1) as nat, fuel as nat).unwrap(),
            ensures
                self.inv(),
                self.memory_view().depth() == d0,
                good ==> self.output() == o0 + total.0 && self.memory_view() == total.1 && self.printing() == total.2,
            decreases budget,
        {
            let ghost ob = self.output();
            let ghost mb = self.memory_view();
            let ghost pb = self.printing();
            let ghost nb = budget;
            proof {
                if good {
                    lemma_while_step(b, h, mb, pb, (fuel - 1) as nat, nb as nat);
                }
            }
            if budget == 0 {
                return Err(limit_reached());
            }
            let holds = match self.header_holds(host, ls, fuel - 1) {
                Ok(b) => b,
                Err(e) => {
                    return Err(e);
                },
            };
            if !holds {
                proof {
                    if good {
                        assert(self.output() + Seq::<Seq<char>>::empty() =~= self.output());
                    }
                }
                break;
            }
            budget -= 1;
            let body = crate::statics::copy_tokens(t);
            let r = match self.eval(host, body, fuel - 1) {
                Ok(x) => x,
                Err(e) => {
                    return Err(e);
                },
            };
            proof {
                reveal_strlit("UDF");
                reveal_strlit("BREAK");
                if good {
                    let wr2 = while_run(b, h, self.memory_view(), self.printing(), (fuel - 1) as nat, budget as nat);
                    assert(self.output() + wr2.unwrap().0 =~= ob + (self.output().subrange(ob.len() as int, self.output().len() as int) + wr2.unwrap().0));
                    assert(self.output() =~= ob + self.output().subrange(ob.len() as int, self.output().len() as int));
                }
            }
            if r.id == crate::statics::SIG && str_eq(r.value.as_str(), "BREAK") {
                proof {
                    if good {
                        let rb = run_block(b, mb, pb, (fuel - 1) as nat).unwrap();
                        assert(udf_view().id != crate::statics::SIG);
                        assert(rb.3 is Some && is_break(rb.3.unwrap()));
                        assert(while_run(b, h, mb, pb, (fuel - 1) as nat, nb as nat) == Some((rb.0, rb.1, rb.2)));
                        assert(self.output() == ob + rb.0);
                        assert(self.output() == o0 + total.0);
                        assert(self.memory_view() == total.1);
                        assert(self.printing() == total.2);
                    }
                }
                break;
            }
        }
        Ok(())
    }

    /// Runs the `while` loop at `tokens[i]`; the token before it is taken out. Gives `i`.
    fn eval_while_loop<H: Host>(&mut self, host: &mut H, i: usize, tokens: &mut Vec<Token>, fuel: u64) -> (r: Result<usize, String>)
        requires
            old(self).inv(),
        ensures
            final(self).inv(),
            final(self).memory_view().depth() == old(self).memory_view().depth(),
            r matches Ok(n) ==> n == i,
            fuel == 0 || i == 0 || i >= old(tokens).len() ==> r is Err,
            ({
                let s = views(old(tokens)@);
                let k = i as int;
                let b = s[k].list.unwrap();
                let m = old(self).memory_view();
                let wr = while_run(b, b.take(first_star(b, 0)), m.with_new_scope(), old(self).printing(), (fuel - 2) as nat,
                    (fuel - 1) as nat);
                1 <= k < s.len() && s[k].id == crate::statics::CTL && s[k].list is Some && fuel >= 2
                && m.depth() < usize::MAX - 1 && wr is Some
                ==> r == Ok::<usize, String>(i) && views(final(tokens)@) == s.remove(k - 1)
                    && final(self).output() == old(self).output() + wr.unwrap().0
                    && final(self).memory_view() == wr.unwrap().1.without_top_scope()
                    && final(self).printing() == wr.unwrap().2
            }),
        decreases fuel, 0nat,
    {
        proof {
            lemma_views(tokens@);
        }
        let ghost s0 = views(tokens@);
        if fuel == 0 {
            return Err(limit_reached());
        }
        let cur = match token_at(tokens, i) {
            Ok(t) => t,
            Err(e) => {
                return Err(e);
            },
        };
        let t = match self.block_of(&cur, fuel) {
            Ok(x) => x,
            Err(e) => {
                return Err(e);
            },
        };
        let ls = Self::header_of(&t);
        if i == 0 {
            return Err("index out of bounds".to_owned());
        }
        match take_at(tokens, i - 1) {
            Ok(_) => {},
            Err(e) => {
                return Err(e);
            },
        }
        proof {
            lemma_views(tokens@);
            assert(views(tokens@) =~= s0.remove(i - 1));
        }
        match self.open_scope() {
            Ok(_) => {},
            Err(e) => {
                return Err(e);
            },
        }
        let res = self.while_body(host, &t, &ls, fuel - 1);
        self.close_scope();
        match res {
            Ok(_) => Ok(i),
            Err(e) => Err(e),
        }
    }

    /// Runs the block `t` in a scope of its own.
    fn scoped_eval<H: Host>(&mut self, host: &mut H, t: &Vec<Token>, fuel: u64) -> (r: Result<Token, String>)
        requires
            old(self).inv(),
        ensures
            final(self).inv(),
            final(self).memory_view().depth() == old(self).memory_view().depth(),
            fuel >= 1 && scoped_run(views(t@), old(self).memory_view(), old(self).printing(), (fuel - 1) as nat) is Some
                ==> ({
                    let sr = scoped_run(views(t@), old(self).memory_view(), old(self).printing(), (fuel - 1) as nat).unwrap();
                    &&& r is Ok
                    &&& final(self).output() == old(self).output() + sr.0
                    &&& final(self).memory_view() == sr.1
                    &&& final(self).printing() == sr.2
                }),
        decreases fuel, 0nat,
    {
        proof {
            reveal(run_block);
        }
        if fuel == 0 {
            return Err(limit_reached());
        }
        match self.open_scope() {
            Ok(_) => {},
            Err(e) => {
                return Err(e);
            },
        }
        let body = crate::statics::copy_tokens(t);
        let res = self.eval(host, body, fuel - 1);
        self.close_scope();
        res
    }

    /// Runs the `if` block at `tokens[i]` when its header holds (the token before it then
    /// taken out). Gives `i` and whether the block ran.
    fn eval_if_block<H: Host>(&mut self, host: &mut H, i: usize, tokens: &mut Vec<Token>, fuel: u64) -> (r: Result<(usize, bool), String>)
        requires
            old(self).inv(),
        ensures
            final(self).inv(),
            final(self).memory_view().depth() == old(self).memory_view().depth(),
            ({
                let s = views(old(tokens)@);
                let k = i as int;
                let b = s[k].list.unwrap();
                k < s.len() && s[k].id == crate::statics::CTL && s[k].list is Some
                && header_truth(old(self).memory_view(), b) == Some(false) && fuel > b.len() + 1
                ==> r == Ok::<(usize, bool), String>((i, false)) && final(tokens)@ == old(tokens)@ && *final(self) == *old(self)
            }),
            ({
                let s = views(old(tokens)@);
                let k = i as int;
                let b = s[k].list.unwrap();
                let sr = scoped_run(b, old(self).memory_view(), old(self).printing(), (fuel - 2) as nat);
                k < s.len() && s[k].id == crate::statics::CTL && s[k].list is Some
                && header_truth(old(self).memory_view(), b) == Some(true) && k >= 1 && fuel >= 2 && sr is Some
                ==> r == Ok::<(usize, bool), String>((i, true)) && views(final(tokens)@) == s.remove(k - 1)
                    && final(self).output() == old(self).output() + sr.unwrap().0
                    && final(self).memory_view() == sr.unwrap().1
                    && final(self).printing() == sr.unwrap().2
            }),
        decreases fuel, 0nat,
    {
        proof {
            lemma_views(tokens@);
            let s = views(tokens@);
            if (i as int) < s.len() && s[i as int].list is Some {
                let b = s[i as int].list.unwrap();
                lemma_first_star_bound(b);
                assert(b.take(first_star(b, 0)).len() <= b.len());
            }
        }
        if fuel == 0 {
            return Err(limit_reached());
        }
        let cur = match token_at(tokens, i) {
            Ok(t) => t,
            Err(e) => {
                return Err(e);
            },
        };
        let t = match self.block_of(&cur, fuel) {
            Ok(x) => x,
            Err(e) => {
                return Err(e);
            },
        };
        let ghost s0 = views(tokens@);
        let ghost self0 = *self;
        let ls = Self::header_of(&t);
        proof {
            if s0[i as int].id == crate::statics::CTL && s0[i as int].list is Some {
                assert(views(t@) == s0[i as int].list.unwrap());
            }
            assert(views(ls@).len() == ls@.len()) by {
                lemma_views(ls@);
            }
        }
        let c = match self.eval_exp(host, ls, fuel - 1) {
            Ok(x) => x,
            Err(e) => {
                return Err(e);
            },
        };
        let holds = match self.truth_of(host, &c) {
            Ok(b) => b,
            Err(e) => {
                return Err(e);
            },
        };
        if !holds {
            return Ok((i, false));
        }
        if i == 0 {
            return Err("index out of bounds".to_owned());
        }
        match take_at(tokens, i - 1) {
            Ok(_) => {},
            Err(e) => {
                return Err(e);
            },
        }
        proof {
            lemma_views(tokens@);
            assert(views(tokens@) =~= s0.remove(i - 1));
        }
        match self.scoped_eval(host, &t, fuel - 1) {
            Ok(_) => Ok((i, true)),
            Err(e) => Err(e),
        }
    }

    /// Runs the `else` block at `tokens[i]` (the token before it taken out). Gives `i`.
    fn eval_else_block<H: Host>(&mut self, host: &mut H, i: usize, tokens: &mut Vec<Token>, fuel: u64) -> (r: Result<usize, String>)
        requires
            old(self).inv(),
        ensures
            final(self).inv(),
            final(self).memory_view().depth() == old(self).memory_view().depth(),
            ({
                let s = views(old(tokens)@);
                let k = i as int;
                let sr = scoped_run(s[k].list.unwrap(), old(self).memory_view(), old(self).printing(), (fuel - 2) as nat);
                k < s.len() && s[k].id == crate::statics::CTL && s[k].list is Some && k >= 1 && fuel >= 2 && sr is Some
                ==> r == Ok::<usize, String>(i) && views(final(tokens)@) == s.remove(k - 1)
                    && final(self).output() == old(self).output() + sr.unwrap().0
                    && final(self).memory_view() == sr.unwrap().1
                    && final(self).printing() == sr.unwrap().2
            }),
        decreases fuel, 0nat,
    {
        proof {
            lemma_views(tokens@);
        }
        if fuel == 0 {
            return Err(limit_reached());
        }
        let cur = match token_at(tokens, i) {
            Ok(t) => t,
            Err(e) => {
                return Err(e);
            },
        };
        let t = match self.block_of(&cur, fuel) {
            Ok(x) => x,
            Err(e) => {
                return Err(e);
            },
        };
        if i == 0 {
            return Err("index out of bounds".to_owned());
        }
        let ghost s0 = views(tokens@);
        match take_at(tokens, i - 1) {
            Ok(_) => {},
            Err(e) => {
                return Err(e);
            },
        }
        proof {
            lemma_views(tokens@);
            assert(views(tokens@) =~= s0.remove(i - 1));
        }
        match self.scoped_eval(host, &t, fuel - 1) {
            Ok(_) => Ok(i),
            Err(e) => Err(e),
        }
    }

    /// Evaluates the parenthesized value that starts at `tokens[i]` (up to the matching
    /// `)`). Gives the position after it and the value; the undefined token when the
    /// tokens end first.
    #[verifier::loop_isolation(false)]
    fn get_value<H: Host>(&mut self, host: &mut H, tokens: &Vec<Token>, i: usize, fuel: u64) -> (r: Result<(usize, Token), String>)
        requires
            old(self).inv(),
        ensures
            final(self).inv(),
            final(self).memory_view().depth() == old(self).memory_view().depth(),
            fuel == 0 ==> r is Err,
            r matches Ok((n, v)) ==> i <= n + 1,
            fuel >= 1 && 1 <= i && i >= tokens.len() ==> r is Ok && r.unwrap().0 == i - 1 && r.unwrap().1.view() == udf_view()
                && *final(self) == *old(self),
            ({
                let s = views(tokens@);
                let q = first_par(s, i as int);
                let f = first_par(s, q + 1);
                let e = s.subrange(q + 1, f);
                let m = old(self).memory_view();
                fuel >= 1 && q < s.len() && s[q].value == "("@ && f < s.len()
                && s[f].value == ")"@ && arg_value(m, e) is Some && fuel > e.len() + 1
                ==> r is Ok && r.unwrap().0 == f + 1 && r.unwrap().1.view() == arg_value(m, e).unwrap() && *final(self) == *old(self)
            }),
        decreases fuel, 0nat,
    {
        if fuel == 0 {
            return Err(limit_reached());
        }
        let mut toks: Vec<Token> = Vec::new();
        let l = tokens.len();
        let mut depth: u16 = 0;
        let ghost i0 = i;
        let ghost self0 = *self;
        let ghost s = views(tokens@);
        let ghost q = first_par(s, i0 as int);
        let ghost f = first_par(s, q + 1);
        let ghost good = q < s.len() && s[q].value == "("@ && f < s.len() && s[f].value == ")"@;
        proof {
            lemma_views(tokens@);
            lemma_views(toks@);
            reveal_strlit("(");
            reveal_strlit(")");
            assert("("@ != ")"@) by {
                assert("("@[0] != ")"@[0]);
            }
            lemma_first_par_from(s, i0 as int);
            if good {
                lemma_first_par_from(s, q + 1);
            }
        }
        let mut i = i;
        loop
            invariant
                l == tokens.len(),
                i0 <= i,
                i0 >= l ==> i == i0,
                *self == self0,
                s == views(tokens@),
                s.len() == l,
                good ==> (i0 <= i <= q && depth == 0 && toks@.len() == 0 && first_par(s, i as int) == q)
                    || (q < i <= f && depth == 1 && views(toks@) == s.subrange(q + 1, i as int) && first_par(s, i as int) == f),
            decreases l - i,
        {
            if i >= l {
                if i == 0 {
                    return Err("index out of bounds".to_owned());
                }
                return Ok((i - 1, self.__fault()));
            }
            proof {
                lemma_views(tokens@);
                assert(s[i as int] == tokens@[i as int].view());
                if good {
                    lemma_first_par_from(s, q + 1);
                    lemma_first_par_from(s, i as int);
                }
            }
            if tokens[i].id == crate::statics::PAR {
                if str_eq(tokens[i].value.as_str(), "(") {
                    if depth == u16::MAX {
                        return Err("too deep".to_owned());
                    }
                    depth += 1;
                } else if str_eq(tokens[i].value.as_str(), ")") {
                    if depth == 0 {
                        return Err("unbalanced parentheses".to_owned());
                    }
                    depth -= 1;
                    if depth == 0 {
                        break;
                    }
                }
                if depth > 1 {
                    toks.push(tokens[i].clone());
                }
            } else {
                if depth > 0 {
                    let ghost before = toks@;
                    let c = tokens[i].clone();
                    toks.push(c);
                    proof {
                        lemma_push_view_parser(before, c);
                        if good && q < i {
                            assert(s.subrange(q + 1, i + 1) =~= s.subrange(q + 1, i as int).push(s[i as int]));
                        }
                    }
                }
            }
            i += 1;
            proof {
                lemma_views(toks@);
                if good && i == q + 1 {
                    lemma_first_par_from(s, q + 1);
                    assert(views(toks@) =~= s.subrange(q + 1, i as int));
                }
            }
        }
        proof {
            lemma_views(toks@);
        }
        match self.eval_exp(host, toks, fuel - 1) {
            Ok(v) => Ok((i + 1, v)),
            Err(e) => Err(e),
        }
    }

    /// Calls the built-in after the name at `tokens[i]`: the arguments up to the
    /// matching `)` are evaluated and the name gives way to the result. Gives `i`.
    #[verifier::loop_isolation(false)]
    fn binding_execution<H: Host>(&mut self, host: &mut H, i: usize, tokens: &mut Vec<Token>, fuel: u64) -> (r: Result<usize, String>)
        requires
            old(self).inv(),
        ensures
            final(self).inv(),
            final(self).memory_view().depth() == old(self).memory_view().depth(),
            r matches Ok(n) ==> n == i,
            fuel == 0 || i >= old(tokens).len() ==> r is Err,
        decreases fuel, 0nat,
    {
        if fuel == 0 {
            return Err(limit_reached());
        }
        let ghost d0 = self.memory_view().depth();
        let name = match token_at(tokens, i) {
            Ok(t) => t.value,
            Err(e) => {
                return Err(e);
            },
        };
        if i == usize::MAX {
            return Err("index out of bounds".to_owned());
        }
        let mut depth: i32 = 0;
        let mut atoks: Vec<Token> = Vec::new();
        let mut budget = fuel;
        loop
            invariant
                i < usize::MAX,
            decreases budget,
        {
            if budget == 0 {
                return Err(limit_reached());
            }
            budget -= 1;
            if i >= tokens.len() {
                break;
            }
            let nx = match token_at(tokens, i + 1) {
                Ok(t) => t,
                Err(e) => {
                    return Err(e);
                },
            };
            if nx.id == crate::statics::PAR {
                if str_eq(nx.value.as_str(), ")") {
                    if depth == i32::MIN {
                        return Err("too deep".to_owned());
                    }
                    depth -= 1;
                    if depth == 0 {
                        break;
                    }
                    atoks.push(tokens.remove(i + 1));
                } else if str_eq(nx.value.as_str(), "(") {
                    if depth == i32::MAX {
                        return Err("too deep".to_owned());
                    }
                    depth += 1;
                    if depth > 1 {
                        atoks.push(tokens.remove(i + 1));
                    } else {
                        tokens.remove(i + 1);
                    }
                }
            } else {
                atoks.push(tokens.remove(i + 1));
            }
        }
        match take_at(tokens, i) {
            Ok(_) => {},
            Err(e) => {
                return Err(e);
            },
        }
        let mut args: Vec<Token> = Vec::new();
        let k = atoks.len();
        let mut o: usize = 0;
        let mut j: usize = 0;
        while j < k
            invariant
                self.inv(),
                self.memory_view().depth() == d0,
                k == atoks.len(),
                fuel > 0,
            decreases k - j,
        {
            let mut atoksn: Vec<Token> = Vec::new();
            while o < k
                invariant
                    k == atoks.len(),
                decreases k - o,
            {
                if atoks[o].id == crate::statics::SEP {
                    o += 1;
                    break;
                }
                atoksn.push(atoks[o].clone());
                o += 1;
            }
            let v = match self.eval_exp(host, atoksn, fuel - 1) {
                Ok(x) => x,
                Err(e) => {
                    return Err(e);
                },
            };
            args.push(v);
            j += 1;
        }
        let res = match self.exec_builtin(host, name, args) {
            Ok(x) => x,
            Err(e) => {
                return Err(e);
            },
        };
        match put_at(tokens, i, res) {
            Ok(_) => Ok(i),
            Err(e) => Err(e),
        }
    }
}


impl Parser {
    /// Runs the built-in `name` on `args`: `input` prints a prompt and reads a line,
    /// `sum` adds the numbers of a list, `Number` reads a number from a string, `String`
    /// makes a string of a value; anything else gives the undefined token.
    #[verifier::loop_isolation(false)]
    fn exec_builtin<H: Host>(&mut self, host: &mut H, name: String, args: Vec<Token>) -> (r: Result<Token, String>)
        requires
            old(self).inv(),
        ensures
            final(self).inv(),
            final(self).memory_view() == old(self).memory_view(),
            !(name@ == "input"@ || name@ == "sum"@ || name@ == "Number"@ || name@ == "String"@)
                ==> (r matches Ok(t) && t.view() == udf_view()),
            (name@ == "input"@ || name@ == "sum"@ || name@ == "Number"@ || name@ == "String"@) && args.len() == 0
                ==> r is Err,
            name@ == "String"@ && args.len() > 0 ==> (r matches Ok(t) && t.view() == (if args@[0].data_type == DT_STR {
                args@[0].view()
            } else {
                lit_view(seq!['"'] + args@[0].value@ + seq!['"'])
            })),
            name@ == "Number"@ && args.len() > 0 && args@[0].data_type == DT_NUM
                ==> (r matches Ok(t) && t.view() == args@[0].view()),
            name@ == "Number"@ && args.len() > 0 && args@[0].data_type != DT_NUM && args@[0].data_type != DT_STR
                ==> (r matches Ok(t) && t.view() == udf_view()),
            name@ == "Number"@ && args.len() > 0 && args@[0].data_type == DT_STR ==> match quoted_inner(args@[0].value@) {
                None => r is Err,
                Some(init) => if !is_number_text(init) {
                    r matches Ok(t) && t.view() == udf_view()
                } else if init.contains('.') {
                    r matches Ok(t) ==> t.id == LIT
                } else {
                    match crate::decimal::parse_i64(init) {
                        Some(n) => r matches Ok(t) && t.view() == lit_view(int_decimal(n as int)),
                        None => r is Err,
                    }
                },
            },
            name@ == "sum"@ && args.len() > 0 ==> (args@[0].list is None <==> r is Err),
            name@ == "sum"@ && args.len() > 0 ==> (r matches Ok(t) ==> t.view() == udf_view() || t.id == LIT),
            name@ == "input"@ ==> (r matches Ok(t) ==> t.id == LIT),
    {
        proof {
            reveal_strlit("input");
            reveal_strlit("sum");
            reveal_strlit("Number");
            reveal_strlit("String");
            assert("input"@[0] != "String"@[0] && "input"@[0] != "Number"@[0] && "input"@[0] != "sum"@[0]);
            assert("sum"@[0] != "String"@[0] && "sum"@[0] != "Number"@[0]);
            assert("Number"@[0] != "String"@[0]);
        }
        if str_eq(name.as_str(), "input") {
            if args.len() == 0 {
                return Err("missing argument".to_owned());
            }
            let prompt = match quoted_inner_exec(args[0].value.as_str()) {
                Some(x) => string_of(&x),
                None => {
                    return Err("invalid prompt".to_owned());
                },
            };
            let pl = line_of(prompt.as_str());
            self.emit(host, pl.as_str());
            let input = match host.read_line() {
                Some(x) => x,
                None => {
                    return Err("ERROR READING INPUT".to_owned());
                },
            };
            self.emit(host, "\n");
            let c = chars_of(input.as_str());
            if c.len() == 0 || (c[c.len() - 1] as u32) >= 128 {
                return Err("invalid input".to_owned());
            }
            let mut v: Vec<char> = Vec::new();
            v.push('"');
            let mut k: usize = 0;
            while k < c.len() - 1
                invariant
                    c.len() >= 1,
                decreases c.len() - 1 - k,
            {
                v.push(c[k]);
                k += 1;
            }
            v.push('"');
            return Ok(lit_token(string_of(&v)));
        } else if str_eq(name.as_str(), "sum") {
            if args.len() == 0 {
                return Err("missing argument".to_owned());
            }
            let items: Vec<String> = match &args[0].list {
                Some(l) => {
                    let mut out: Vec<String> = Vec::new();
                    let mut k: usize = 0;
                    while k < l.len()
                        invariant
                            k <= l.len(),
                        decreases l.len() - k,
                    {
                        out.push(copy_str(l[k].value.as_str()));
                        k += 1;
                    }
                    out
                },
                None => {
                    return Err("invalid list".to_owned());
                },
            };
            return match host.sum(&items) {
                Some(x) => Ok(lit_token(x)),
                None => Ok(self.__fault()),
            };
        } else if str_eq(name.as_str(), "Number") {
            if args.len() == 0 {
                return Err("missing argument".to_owned());
            }
            if args[0].data_type == DT_STR {
                let init = match quoted_inner_exec(args[0].value.as_str()) {
                    Some(x) => string_of(&x),
                    None => {
                        return Err("invalid string".to_owned());
                    },
                };
                if !pattern_found(NUMBER_RE_PAT, init.as_str()) {
                    return Ok(self.__fault());
                }
                if has_char(init.as_str(), '.') {
                    return match host.number(init.as_str()) {
                        Some(x) => Ok(lit_token(x)),
                        None => Err("invalid number".to_owned()),
                    };
                }
                return match parse_i64_str(init.as_str()) {
                    Some(n) => Ok(lit_token(i64_to_string(n))),
                    None => Err("invalid number".to_owned()),
                };
            }
            if args[0].data_type == DT_NUM {
                return Ok(args[0].clone());
            }
        } else if str_eq(name.as_str(), "String") {
            if args.len() == 0 {
                return Err("missing argument".to_owned());
            }
            if args[0].data_type == DT_STR {
                return Ok(args[0].clone());
            }
            let mut v: Vec<char> = Vec::new();
            v.push('"');
            let mut c = chars_of(args[0].value.as_str());
            v.append(&mut c);
            v.push('"');
            assert(v@ =~= seq!['"'] + args@[0].value@ + seq!['"']);
            return Ok(lit_token(string_of(&v)));
        }
        Ok(self.__fault())
    }

    /// Stores `t` back where it came from: under its name when it was read through one,
    /// else in the token before the member.
    fn store_back(&mut self, tokens: &mut Vec<Token>, i: usize, is_ref: bool, ov: &str, t: Token) -> (r: Result<(), String>)
        requires
            old(self).inv(),
        ensures
            final(self).inv(),
            final(self).memory_view().depth() == old(self).memory_view().depth(),
            Parser::keeps_program_and_output(*old(self), *final(self)),
            final(self).module_count() == old(self).module_count(),
            is_ref ==> final(tokens)@ == old(tokens)@
                && (r is Ok <==> assignable(old(self).memory_view(), ov@))
                && (r is Ok ==> final(self).memory_view() == old(self).memory_view().assign(ov@, t.view()))
                && (r is Err ==> final(self).memory_view() == old(self).memory_view()),
            !is_ref ==> final(self).memory_view() == old(self).memory_view()
                && (r is Ok <==> 1 <= i <= old(tokens).len())
                && (r is Ok ==> final(tokens)@ == old(tokens)@.update(i - 1, t))
                && (r is Err ==> final(tokens)@ == old(tokens)@),
    {
        if is_ref {
            self.assign(ov, t)
        } else {
            if i == 0 {
                return Err("index out of bounds".to_owned());
            }
            put_at(tokens, i - 1, t)
        }
    }

    /// Evaluates the member `tokens[i + 1]` of the value before the point at
    /// `tokens[i]`: string tests and length, list methods and length, number
    /// conversion, object fields and module variables. Gives where evaluation goes on,
    /// the member's value, and the tokens.
    #[verifier::rlimit(60)]
    #[verifier::loop_isolation(false)]
    fn execute<H: Host>(&mut self, host: &mut H, tokens: Vec<Token>, i: usize, fuel: u64) -> (r: Result<(usize, Token, Vec<Token>), String>)
        requires
            old(self).inv(),
        ensures
            final(self).inv(),
            final(self).memory_view().depth() == old(self).memory_view().depth(),
            fuel == 0 || i == 0 || i >= usize::MAX - 1 || i + 1 >= tokens.len() ==> r is Err,
            ({
                let s = views(tokens@);
                let k = i as int;
                let m = old(self).memory_view();
                let tv = if s[k - 1].id == crate::statics::REF { m.lookup(s[k - 1].value) } else { s[k - 1] };
                fuel >= 1 && 1 <= k && k + 1 < s.len() && i < usize::MAX - 1
                && tv.data_type == crate::statics::DT_OBJ && tv.tt == crate::statics::DICT_TOKEN && tv.dict is Some
                && crate::statics::dict_of(tv).contains_key(s[k + 1].value)
                ==> r is Ok && r.unwrap().0 == i && r.unwrap().1.view() == crate::statics::dict_of(tv)[s[k + 1].value]
                    && views(r.unwrap().2@) == s && *final(self) == *old(self)
            }),
            ({
                let s = views(tokens@);
                let k = i as int;
                let m = old(self).memory_view();
                let tv = if s[k - 1].id == crate::statics::REF { m.lookup(s[k - 1].value) } else { s[k - 1] };
                fuel >= 1 && 1 <= k && k + 1 < s.len() && tv.data_type == DT_LST && s[k + 1].value == "length"@
                ==> r is Ok && r.unwrap().0 == i && r.unwrap().1.view() == lit_view(crate::decimal::nat_digits(tv.length as nat))
                    && views(r.unwrap().2@) == s && *final(self) == *old(self)
            }),
            ({
                let s = views(tokens@);
                let k = i as int;
                let m = old(self).memory_view();
                let tv = m.lookup(s[k - 1].value);
                let q = first_par(s, k);
                let f = first_par(s, q + 1);
                let v = arg_value(m, s.subrange(q + 1, f));
                let name = s[k + 1].value;
                fuel >= 2 && 1 <= k && k + 1 < s.len() && s[k - 1].id == crate::statics::REF
                && tv.data_type == DT_LST && list_ready(tv) && (name == "push"@ || (name == "pop"@ && tv.length > 0))
                && q < s.len() && s[q].value == "("@ && f < s.len() && s[f].value == ")"@ && v is Some
                && fuel > f - q + 1 && assignable(m, s[k - 1].value)
                ==> r is Ok && r.unwrap().0 == f - 1 && views(r.unwrap().2@) == s
                    && Parser::keeps_program_and_output(*old(self), *final(self))
                    && (name == "push"@ ==> r.unwrap().1.view() == udf_view()
                        && final(self).memory_view() == m.assign(s[k - 1].value, pushed(tv, v.unwrap())))
                    && (name == "pop"@ ==> r.unwrap().1.view() == crate::statics::list_of(tv).last()
                        && final(self).memory_view() == m.assign(s[k - 1].value, popped(tv)))
            }),
            ({
                let s = views(tokens@);
                let k = i as int;
                let m = old(self).memory_view();
                let tv = if s[k - 1].id == crate::statics::REF { m.lookup(s[k - 1].value) } else { s[k - 1] };
                let q = first_par(s, k);
                let f = first_par(s, q + 1);
                fuel >= 2 && 1 <= k && k + 1 < s.len() && tv.data_type == DT_NUM && s[k + 1].value == "to_string"@
                && q < s.len() && s[q].value == "("@ && f < s.len() && s[f].value == ")"@
                && arg_value(m, s.subrange(q + 1, f)) is Some && fuel > f - q + 1
                ==> r is Ok && r.unwrap().0 == f - 1 && r.unwrap().1.view() == lit_view(seq!['"'] + tv.value + seq!['"'])
                    && views(r.unwrap().2@) == s && *final(self) == *old(self)
            }),
            ({
                let s = views(tokens@);
                let k = i as int;
                let m = old(self).memory_view();
                let tv = m.lookup(s[k - 1].value);
                let q = first_par(s, k);
                let f = first_par(s, q + 1);
                let name = s[k + 1].value;
                let pat = if name == "is_alpha"@ { crate::statics::ALPHA_RE_PAT@ } else { crate::statics::DIGIT_RE_PAT@ };
                fuel >= 2 && 1 <= k && k + 1 < s.len() && s[k - 1].id == crate::statics::REF && tv.data_type == DT_STR
                && (name == "is_alpha"@ || name == "is_digit"@) && quoted_inner(tv.value) is Some
                && q < s.len() && s[q].value == "("@ && f < s.len() && s[f].value == ")"@
                && arg_value(m, s.subrange(q + 1, f)) is Some && fuel > f - q + 1 && assignable(m, s[k - 1].value)
                ==> r is Ok && r.unwrap().0 == f - 1
                    && r.unwrap().1.view() == lit_view(bool_text(pattern_matches(pat, quoted_inner(tv.value).unwrap())))
                    && views(r.unwrap().2@) == s && final(self).memory_view() == m.assign(s[k - 1].value, tv)
                    && Parser::keeps_program_and_output(*old(self), *final(self))
            }),
        decreases fuel, 0nat,
    {
        proof {
            lemma_views(tokens@);
            lemma_list_kinds();
            lemma_other_kinds();
        }
        if fuel == 0 {
            return Err(limit_reached());
        }
        let mut tokens = tokens;
        let mut i = i;
        if i == 0 || i == usize::MAX {
            return Err("index out of bounds".to_owned());
        }
        let target = match token_at(&tokens, i + 1) {
            Ok(t) => t.value,
            Err(e) => {
                return Err(e);
            },
        };
        let prev = match token_at(&tokens, i - 1) {
            Ok(t) => t,
            Err(e) => {
                return Err(e);
            },
        };
        let is_ref = prev.id == crate::statics::REF;
        let ov = copy_str(prev.value.as_str());
        let mut t = if !is_ref {
            prev
        } else {
            self.lookup(prev.value.as_str())
        };
        if t.data_type == DT_STR {
            let btype = self.BINDINGS.get_type(DT_STR, target.as_str());
            if str_eq(btype.as_str(), "method") {
                let mut ret = self.__fault();
                if str_eq(target.as_str(), "is_alpha") || str_eq(target.as_str(), "is_digit") {
                    proof {
                        let s = views(tokens@);
                        let q = first_par(s, i as int);
                        lemma_first_par_from(s, i as int);
                        if q < s.len() {
                            lemma_first_par_from(s, q + 1);
                        }
                    }
                    let x = match self.get_value(host, &tokens, i, fuel - 1) {
                        Ok(x) => x,
                        Err(e) => {
                            return Err(e);
                        },
                    };
                    if x.0 < 2 {
                        return Err("index out of bounds".to_owned());
                    }
                    i = x.0 - 2;
                    let inner = match quoted_inner_exec(t.value.as_str()) {
                        Some(v) => string_of(&v),
                        None => {
                            return Err("invalid string".to_owned());
                        },
                    };
                    let pat = if str_eq(target.as_str(), "is_alpha") {
                        crate::statics::ALPHA_RE_PAT
                    } else {
                        crate::statics::DIGIT_RE_PAT
                    };
                    ret = Self::bool_token(pattern_found(pat, inner.as_str()));
                }
                match self.store_back(&mut tokens, i, is_ref, ov.as_str(), t) {
                    Ok(_) => {},
                    Err(e) => {
                        return Err(e);
                    },
                }
                return Ok((i, ret, tokens));
            } else if str_eq(btype.as_str(), "property") {
                if str_eq(target.as_str(), "length") {
                    let n = t.value.as_str().len();
                    if n < 2 {
                        return Err("invalid string".to_owned());
                    }
                    return Ok((i, lit_token(usize_text(n - 2)), tokens));
                }
            }
        }
        if t.data_type == DT_LST {
            let btype = self.BINDINGS.get_type(DT_LST, target.as_str());
            if str_eq(btype.as_str(), "method") {
                let mut ret = self.__fault();
                proof {
                    if t.list is Some {
                        lemma_views(t.list.unwrap()@);
                    }
                }
                if !is_well_made(&t) {
                    return Err("invalid list".to_owned());
                }
                if str_eq(target.as_str(), "push") || str_eq(target.as_str(), "pop") || str_eq(target.as_str(), "remove")
                    || str_eq(target.as_str(), "get") {
                    proof {
                        let s = views(tokens@);
                        let k = i as int;
                        let m = self.memory_view();
                        let q = first_par(s, k);
                        let f = first_par(s, q + 1);
                        let e = s.subrange(q + 1, f);
                        if fuel >= 2 && q < s.len() && s[q].value == "("@ && f < s.len() && s[f].value == ")"@
                            && arg_value(m, e) is Some && fuel > f - q + 1 {
                            lemma_first_par_from(s, k);
                            assert(q >= k);
                            lemma_first_par_from(s, q + 1);
                            assert(e.len() == f - q - 1);
                            assert(fuel - 1 > e.len() + 1);
                        }
                    }
                    let x = match self.get_value(host, &tokens, i, fuel - 1) {
                        Ok(x) => x,
                        Err(e) => {
                            return Err(e);
                        },
                    };
                    if x.0 < 2 {
                        return Err("index out of bounds".to_owned());
                    }
                    i = x.0 - 2;
                    if str_eq(target.as_str(), "push") {
                        let _ = t.push(x.1);
                    } else if str_eq(target.as_str(), "pop") {
                        ret = match t.pop() {
                            Ok(v) => v,
                            Err(e) => {
                                return Err(e);
                            },
                        };
                    } else {
                        let idx = match parse_usize_str(x.1.value.as_str()) {
                            Some(n) => n,
                            None => {
                                return Err("invalid index".to_owned());
                            },
                        };
                        if str_eq(target.as_str(), "remove") {
                            ret = match t.popitem(idx) {
                                Ok(v) => v,
                                Err(e) => {
                                    return Err(e);
                                },
                            };
                        } else {
                            ret = match &t.list {
                                Some(l) => {
                                    if idx < l.len() {
                                        l[idx].clone()
                                    } else {
                                        return Err("index out of bounds".to_owned());
                                    }
                                },
                                None => {
                                    return Err("invalid list".to_owned());
                                },
                            };
                        }
                    }
                }
                match self.store_back(&mut tokens, i, is_ref, ov.as_str(), t) {
                    Ok(_) => {},
                    Err(e) => {
                        return Err(e);
                    },
                }
                return Ok((i, ret, tokens));
            } else if str_eq(btype.as_str(), "property") {
                if str_eq(target.as_str(), "length") {
                    return Ok((i, lit_token(usize_text(t.length)), tokens));
                }
            }
        }
        if t.data_type == DT_NUM {
            let btype = self.BINDINGS.get_type(DT_NUM, target.as_str());
            if str_eq(btype.as_str(), "property") {
                return Ok((i, self.__fault(), tokens));
            } else if str_eq(btype.as_str(), "method") {
                if str_eq(target.as_str(), "to_string") {
                    proof {
                        let s = views(tokens@);
                        let q = first_par(s, i as int);
                        lemma_first_par_from(s, i as int);
                        if q < s.len() {
                            lemma_first_par_from(s, q + 1);
                        }
                    }
                    let x = match self.get_value(host, &tokens, i, fuel - 1) {
                        Ok(x) => x,
                        Err(e) => {
                            return Err(e);
                        },
                    };
                    if x.0 < 2 {
                        return Err("index out of bounds".to_owned());
                    }
                    i = x.0 - 2;
                    let mut v: Vec<char> = Vec::new();
                    v.push('"');
                    let mut c = chars_of(t.value.as_str());
                    let ghost cv = c@;
                    v.append(&mut c);
                    v.push('"');
                    proof {
                        assert(cv == t.value@);
                        assert(v@ =~= seq!['"'] + t.value@ + seq!['"']);
                    }
                    return Ok((i, lit_token(string_of(&v)), tokens));
                }
            }
        }
        if t.data_type == crate::statics::DT_OBJ {
            if !is_well_made(&t) {
                return Err("invalid object".to_owned());
            }
            return match t.getd(target) {
                Ok(r) => Ok((i, r, tokens)),
                Err(e) => Err(e),
            };
        } else if t.data_type == crate::statics::DT_MOD {
            let mut k: usize = 0;
            while k < self.modules.len()
                invariant
                    self.inv(),
                decreases self.modules.len() - k,
            {
                if str_eq(self.modules[k].0.as_str(), t.value.as_str()) {
                    let m = &self.modules[k].1;
                    assert(self.modules@[k as int].1.wf());
                    let r = if m.inter_flag_get(target.as_str()) != 1u8 {
                        m.get(target.as_str())
                    } else {
                        self.__fault()
                    };
                    return Ok((i, r, tokens));
                }
                k += 1;
            }
            return Err("no such module".to_owned());
        }
        Ok((i, self.__fault(), tokens))
    }
}


/// Whether every line is short enough to be scanned.
pub open spec fn lines_fit(lines: Seq<Seq<char>>) -> bool {
    &&& lines.len() < usize::MAX - 1
    &&& forall|j: int| 0 <= j < lines.len() ==> (#[trigger] lines[j]).len() < usize::MAX - 8
}

/// The tokens of a source text: its lines (split at each newline) tokenized. Fails where
/// a line is too long to scan or the text does not tokenize.
pub fn file_tokens(contents: &str) -> (r: Result<Vec<Token>, String>)
    ensures
        r is Ok <==> lines_fit(split_view(contents@, '\n'))
            && crate::tokenize::tokenized(split_view(contents@, '\n')) is Some,
        r matches Ok(v) ==> views(v@) == crate::tokenize::tokenized(split_view(contents@, '\n')).unwrap(),
{
    let lines = split_char(contents, '\n');
    let ghost lv = split_view(contents@, '\n');
    if lines.len() >= usize::MAX - 1 {
        return Err("file too long".to_owned());
    }
    let mut refs: Vec<&str> = Vec::new();
    let mut k: usize = 0;
    while k < lines.len()
        invariant
            k <= lines.len(),
            lines.len() < usize::MAX - 1,
            texts(lines@) == lv,
            lv == split_view(contents@, '\n'),
            refs.len() == k,
            forall|j: int| 0 <= j < k ==> (#[trigger] refs@[j])@ == lines@[j]@,
            forall|j: int| 0 <= j < k ==> (#[trigger] refs@[j])@.len() < usize::MAX - 8,
        decreases lines.len() - k,
    {
        if chars_of(lines[k].as_str()).len() >= usize::MAX - 8 {
            assert(lv[k as int] == lines@[k as int]@);
            assert(lv[k as int].len() >= usize::MAX - 8);
            assert(!lines_fit(lv));
            return Err("line too long".to_owned());
        }
        refs.push(lines[k].as_str());
        k += 1;
    }
    assert(crate::tokenize::line_texts(refs@) =~= lv);
    assert forall|j: int| 0 <= j < lv.len() implies (#[trigger] lv[j]).len() < usize::MAX - 8 by {
        assert(lv[j] == refs@[j]@);
    }
    match crate::tokenize::tokenize_checked(refs) {
        Some(t) => Ok(t),
        None => Err("the file does not tokenize".to_owned()),
    }
}

/// The tokens of the source file `filename` (with the source extension) as `file_tokens`
/// reads them; none when the host cannot read the file.
fn read_in_file<H: Host>(host: &mut H, filename: &str) -> (r: Result<Vec<Token>, String>)
    ensures
        r matches Ok(v) ==> v.len() == 0 || exists|c: Seq<char>|
            crate::tokenize::tokenized(split_view(c, '\n')) == Some(views(v@)),
{
    let path = crate::text::joined(filename, crate::statics::FILE_EXT);
    match host.read_file(path.as_str()) {
        Some(c) => file_tokens(c.as_str()),
        None => Ok(Vec::new()),
    }
}

/// The first token kind from identifier `id` on whose name is `w`.
pub open spec fn kind_from(w: Seq<char>, id: nat) -> Option<u8>
    decreases crate::statics::PTR + 1 - id,
{
    if id > crate::statics::PTR {
        None
    } else if crate::statics::token_name(id as u8) == w {
        Some(id as u8)
    } else {
        kind_from(w, id + 1)
    }
}

/// The token kind named `w`, if any (the first one, in the order of identifiers).
pub open spec fn kind_named(w: Seq<char>) -> Option<u8> {
    kind_from(w, 0)
}

/// The non-empty lines among `ls`, in order.
pub open spec fn filled_lines(ls: Seq<Seq<char>>) -> Seq<Seq<char>>
    decreases ls.len(),
{
    if ls.len() == 0 {
        Seq::empty()
    } else if ls.last().len() > 0 {
        filled_lines(ls.drop_last()).push(ls.last())
    } else {
        filled_lines(ls.drop_last())
    }
}

/// The tokens that `words` describe, read in pairs of a kind name and the token's text.
/// `None` where a kind name is unknown or the last text is missing.
pub open spec fn builtin_body(words: Seq<Seq<char>>) -> Option<Seq<TokenView>> {
    if words.len() % 2 == 0 && forall|k: int| 0 <= k < words.len() && k % 2 == 0 ==> #[trigger] kind_named(words[k]) is Some {
        Some(Seq::new((words.len() / 2) as nat, |j: int| new_view(kind_named(words[2 * j]).unwrap(), words[2 * j + 1],
            BASE_TOKEN, 0, 0)))
    } else {
        None
    }
}

/// The function token named `name` whose body is `body`.
pub open spec fn builtin_token(name: Seq<char>, body: Seq<TokenView>) -> TokenView {
    crate::preprocess::with_pushed(new_view(crate::statics::FUN, name, crate::statics::LIST_TOKEN, 0, 0), body)
}

/// What the built-in description `doc` defines: `Some(None)` for nothing (an empty text,
/// or fewer than two non-empty lines), `Some(Some((name, t)))` for the function `t`
/// named on its first non-empty line, whose body the second one describes; `None` where
/// that body cannot be read.
pub open spec fn builtin_def(doc: Seq<char>) -> Option<Option<(Seq<char>, TokenView)>> {
    let lines = filled_lines(split_view(doc, '\n'));
    if doc.len() == 0 || lines.len() < 2 {
        Some(None)
    } else {
        match builtin_body(split_view(lines[1], ' ')) {
            Some(b) => Some(Some((lines[0], builtin_token(lines[0], b)))),
            None => None,
        }
    }
}

/// `m` with `name` written as `t` and then protected.
pub open spec fn defined(m: ScopesView, name: Seq<char>, t: TokenView) -> ScopesView {
    let w = m.assign(name, t);
    ScopesView { protection: w.protection.insert(name, 1), ..w }
}

/// The memory `m` after the descriptions `docs` define their built-ins in turn; `None`
/// where one of them cannot be read or its name cannot be written.
pub open spec fn builtins_defined(m: ScopesView, docs: Seq<Seq<char>>) -> Option<ScopesView>
    decreases docs.len(),
{
    if docs.len() == 0 {
        Some(m)
    } else {
        match builtins_defined(m, docs.drop_last()) {
            Some(m1) => match builtin_def(docs.last()) {
                Some(None) => Some(m1),
                Some(Some((n, t))) => if assignable(m1, n) { Some(defined(m1, n, t)) } else { None },
                None => None,
            },
            None => None,
        }
    }
}

/// Where the descriptions of a prefix of `docs` cannot all be defined, neither can all
/// of `docs`.
proof fn lemma_builtins_stop(m: ScopesView, docs: Seq<Seq<char>>, n: int)
    requires
        0 <= n <= docs.len(),
        builtins_defined(m, docs.take(n)) is None,
    ensures
        builtins_defined(m, docs) is None,
    decreases docs.len() - n,
{
    if n == docs.len() {
        assert(docs.take(n) =~= docs);
    } else {
        assert(docs.take(n + 1).drop_last() =~= docs.take(n));
        lemma_builtins_stop(m, docs, n + 1);
    }
}

/// The loop variable of the `for` loop block `t` (the token before its first `*`) and
/// the tokens of its range (up to the second `*`); an error where `t` starts with `*`.
#[verifier::rlimit(40)]
fn for_parts(t: &Vec<Token>) -> (r: Result<(String, Vec<Token>), String>)
    ensures
        ({
            let b = views(t@);
            let f1 = first_star(b, 0);
            &&& r is Err <==> (b.len() > 0 && f1 == 0)
            &&& r is Ok && f1 >= b.len() ==> r.unwrap().0@.len() == 0 && r.unwrap().1@.len() == 0
            &&& r is Ok && f1 < b.len() ==> r.unwrap().0@ == b[f1 - 1].value
                && views(r.unwrap().1@) == b.subrange(f1 + 1, first_star(b, f1 + 1))
        }),
{
    let ghost b = views(t@);
    let ghost f1 = first_star(b, 0);
    proof {
        lemma_views(t@);
        lemma_first_star_from(b, 0);
    }
    let mut ind: usize = 0;
    let mut sc: usize = 0;
    let mut vname = String::new();
    let mut ls: Vec<Token> = Vec::new();
    proof {
        lemma_views(ls@);
    }
    while ind < t.len()
        invariant
            ind <= t.len(),
            b == views(t@),
            b.len() == t@.len(),
            sc <= 1,
            f1 == first_star(b, 0),
            sc == 0 ==> first_star(b, ind as int) == f1 && ls@.len() == 0 && vname@.len() == 0,
            sc == 1 ==> 0 < f1 < ind && vname@ == b[f1 - 1].value && views(ls@) == b.subrange(f1 + 1, ind as int)
                && first_star(b, f1 + 1) == first_star(b, ind as int),
        ensures
            sc == 0 ==> f1 >= b.len() && ls@.len() == 0 && vname@.len() == 0,
            sc == 1 ==> 0 < f1 < b.len() && vname@ == b[f1 - 1].value
                && views(ls@) == b.subrange(f1 + 1, first_star(b, f1 + 1)),
        decreases t.len() - ind,
    {
        proof {
            lemma_views(t@);
            lemma_views(ls@);
        }
        if is_star(&t[ind]) {
            if sc == 0 {
                sc = 1;
                if ind == 0 {
                    proof {
                        assert(f1 == 0);
                    }
                    return Err("loop without a variable".to_owned());
                }
                vname = copy_str(t[ind - 1].value.as_str());
            } else {
                break;
            }
        } else if sc == 1 {
            let ghost before = ls@;
            let c = t[ind].clone();
            ls.push(c);
            proof {
                lemma_push_view_parser(before, c);
                assert(b.subrange(f1 + 1, ind + 1) =~= b.subrange(f1 + 1, ind as int).push(b[ind as int]));
            }
        }
        ind += 1;
    }
    proof {
        lemma_views(ls@);
        if sc == 1 {
            lemma_first_star_from(b, f1 + 1);
        }
    }
    Ok((vname, ls))
}

/// The tokens of the range `ls` before its first `..` separator, and those after it but
/// its other `..` separators.
#[verifier::loop_isolation(false)]
fn range_parts(ls: &Vec<Token>) -> (r: (Vec<Token>, Vec<Token>))
    ensures
        ({
            let lv = views(ls@);
            let rr = first_range(lv, 0);
            &&& views(r.0@) == lv.take(rr)
            &&& views(r.1@) == if rr < lv.len() { without_ranges(lv.skip(rr + 1)) } else { Seq::empty() }
        }),
{
    let mut flag = false;
    let mut ls1: Vec<Token> = Vec::new();
    let mut ls2: Vec<Token> = Vec::new();
    let mut j: usize = 0;
    let ghost lv = views(ls@);
    let ghost rr = first_range(lv, 0);
    proof {
        lemma_views(ls@);
        lemma_views(ls1@);
        lemma_views(ls2@);
        lemma_first_range_from(lv, 0);
        assert(lv.take(0) =~= views(ls1@));
    }
    while j < ls.len()
        invariant
            j <= ls.len(),
            lv == views(ls@),
            lv.len() == ls@.len(),
            rr == first_range(lv, 0),
            0 <= rr <= lv.len(),
            !flag ==> first_range(lv, j as int) == rr && views(ls1@) == lv.take(j as int) && ls2@.len() == 0,
            flag ==> rr < j && views(ls1@) == lv.take(rr) && views(ls2@) == without_ranges(lv.subrange(rr + 1, j as int)),
        decreases ls.len() - j,
    {
        proof {
            lemma_views(ls@);
            assert(lv[j as int] == ls@[j as int].view());
            if flag {
                assert(lv.subrange(rr + 1, j + 1).drop_last() =~= lv.subrange(rr + 1, j as int));
                assert(lv.subrange(rr + 1, j + 1).last() == lv[j as int]);
            }
        }
        if ls[j].id == crate::statics::SEP && str_eq(ls[j].value.as_str(), "..") {
            proof {
                lemma_views(ls2@);
                reveal_strlit("..");
                assert(is_range_sep(lv[j as int]));
                if flag {
                    assert(without_ranges(lv.subrange(rr + 1, j + 1)) == without_ranges(lv.subrange(rr + 1, j as int)));
                } else {
                    assert(rr == j);
                    assert(lv.subrange(rr + 1, j + 1) =~= Seq::<TokenView>::empty());
                }
            }
            flag = true;
        } else if flag {
            proof {
                reveal_strlit("..");
                assert(!is_range_sep(lv[j as int]));
            }
            let ghost before = ls2@;
            let c = ls[j].clone();
            ls2.push(c);
            proof {
                lemma_push_view_parser(before, c);
                assert(without_ranges(lv.subrange(rr + 1, j + 1)) == without_ranges(lv.subrange(rr + 1, j as int)).push(lv[j as int]));
            }
        } else {
            proof {
                reveal_strlit("..");
                assert(!is_range_sep(lv[j as int]));
            }
            let ghost before = ls1@;
            let c = ls[j].clone();
            ls1.push(c);
            proof {
                lemma_push_view_parser(before, c);
                assert(lv.take(j + 1) =~= lv.take(j as int).push(lv[j as int]));
            }
        }
        j += 1;
    }
    proof {
        lemma_views(ls1@);
        lemma_views(ls2@);
        if !flag {
            assert(lv.take(lv.len() as int) =~= lv);
        } else {
            assert(lv.subrange(rr + 1, lv.len() as int) =~= lv.skip(rr + 1));
        }
    }
    (ls1, ls2)
}

/// The identifier of the token kind named `name`.
fn token_id(name: &str) -> (r: Option<u8>)
    ensures
        r == kind_named(name@),
        r matches Some(id) ==> id <= crate::statics::PTR && crate::statics::token_name(id) == name@,
        r is None ==> forall|id: u8| id <= crate::statics::PTR ==> crate::statics::token_name(id) != name@,
{
    let mut id: u8 = 0;
    while id <= crate::statics::PTR
        invariant
            id <= crate::statics::PTR + 1,
            forall|x: u8| x < id ==> crate::statics::token_name(x) != name@,
            kind_named(name@) == kind_from(name@, id as nat),
        decreases crate::statics::PTR + 1 - id,
    {
        if str_eq(crate::statics::token_array(id), name) {
            return Some(id);
        }
        id += 1;
    }
    None
}

/// The pieces of `s` from position `k` on, `cur` already gathered into the current
/// piece: each occurrence of `p` found from the left, without overlapping, ends a piece.
pub open spec fn split_from(s: Seq<char>, p: Seq<char>, k: int, cur: Seq<char>) -> Seq<Seq<char>>
    decreases s.len() - k,
{
    if k < 0 || k >= s.len() {
        seq![cur]
    } else if p.len() > 0 && crate::replacer::occurs_at(s, p, k) {
        seq![cur] + split_from(s, p, k + p.len(), Seq::empty())
    } else {
        split_from(s, p, k + 1, cur.push(s[k]))
    }
}

/// The pieces of `s` between the occurrences of `pat` (not empty), found from the left
/// without overlapping, as `str::split` gives them.
#[verifier::loop_isolation(false)]
fn split_text(s: &str, pat: &str) -> (r: Vec<String>)
    ensures
        texts(r@) == split_from(s@, pat@, 0, Seq::empty()),
{
    let v = chars_of(s);
    let p = chars_of(pat);
    let mut out: Vec<String> = Vec::new();
    let mut cur: Vec<char> = Vec::new();
    let mut k: usize = 0;
    let ghost goal = split_from(s@, pat@, 0, Seq::empty());
    assert(texts(out@) =~= Seq::<Seq<char>>::empty());
    assert(goal =~= texts(out@) + split_from(v@, p@, 0, cur@));
    while k < v.len()
        invariant
            k <= v.len(),
            v@ == s@,
            p@ == pat@,
            goal == texts(out@) + split_from(v@, p@, k as int, cur@),
        decreases v.len() - k,
    {
        let mut hit = p.len() > 0 && p.len() <= v.len() - k;
        let mut j: usize = 0;
        while hit && j < p.len()
            invariant
                hit ==> p.len() <= v.len() - k,
                hit ==> p.len() > 0,
                hit ==> forall|jj: int| 0 <= jj < j ==> v@[k + jj] == p@[jj],
                !hit ==> (p.len() == 0 || p.len() > v.len() - k
                    || exists|jj: int| 0 <= jj < p.len() && #[trigger] v@[k + jj] != p@[jj]),
                k < v.len(),
            decreases p.len() - j,
        {
            if v[k + j] != p[j] {
                hit = false;
                assert(v@[k + j as int] != p@[j as int]);
            }
            j += 1;
        }
        let ghost occ = p@.len() > 0 && crate::replacer::occurs_at(v@, p@, k as int);
        proof {
            if hit {
                assert(v@.subrange(k as int, k + p.len()) =~= p@);
            } else if occ {
                let sub = v@.subrange(k as int, k + p.len());
                assert(sub == p@);
                assert forall|jj: int| 0 <= jj < p.len() implies #[trigger] v@[k + jj] == p@[jj] by {
                    assert(sub[jj] == v@[k + jj]);
                }
            }
        }
        assert(hit == occ);
        let ghost before = texts(out@);
        if hit {
            let piece = string_of(&cur);
            out.push(piece);
            assert(texts(out@) =~= before.push(cur@));
            assert(seq![cur@] + split_from(v@, p@, k + p.len(), Seq::empty()) == split_from(v@, p@, k as int, cur@));
            assert(before + split_from(v@, p@, k as int, cur@) =~= before.push(cur@) + split_from(v@, p@, k + p.len(), Seq::empty()));
            cur = Vec::new();
            assert(cur@ =~= Seq::<char>::empty());
            k += p.len();
        } else {
            let ghost oc = cur@;
            cur.push(v[k]);
            assert(split_from(v@, p@, k as int, oc) == split_from(v@, p@, k + 1, oc.push(v@[k as int])));
            k += 1;
        }
    }
    let ghost before = texts(out@);
    out.push(string_of(&cur));
    assert(texts(out@) =~= before.push(cur@));
    assert(split_from(v@, p@, k as int, cur@) == seq![cur@]);
    assert(texts(out@) =~= before + seq![cur@]);
    out
}

/// The position of the first module named `name` in `mods` from position `k` on.
pub open spec fn module_at(mods: Seq<(String, VarScopes)>, name: Seq<char>, k: int) -> Option<int>
    decreases mods.len() - k,
{
    if k < 0 || k >= mods.len() {
        None
    } else if mods[k].0@ == name {
        Some(k)
    } else {
        module_at(mods, name, k + 1)
    }
}

impl Parser {
    /// Records the memory of the module `name`, in place of an earlier one of that name.
    #[verifier::loop_isolation(false)]
    fn insert_module(&mut self, name: String, m: VarScopes)
        requires
            old(self).inv(),
            m.wf(),
            m.view().depth() >= 1,
        ensures
            final(self).inv(),
            final(self).memory_view() == old(self).memory_view(),
            Parser::keeps_program_and_output(*old(self), *final(self)),
            final(self).modules@ == match module_at(old(self).modules@, name@, 0) {
                Some(k) => old(self).modules@.update(k, (name, m)),
                None => old(self).modules@.push((name, m)),
            },
    {
        let mut k: usize = 0;
        while k < self.modules.len()
            invariant
                self.inv(),
                *self == *old(self),
                m.wf(),
                m.view().depth() >= 1,
                k <= self.modules.len(),
                module_at(old(self).modules@, name@, 0) == module_at(old(self).modules@, name@, k as int),
            decreases self.modules.len() - k,
        {
            if str_eq(self.modules[k].0.as_str(), name.as_str()) {
                self.modules.set(k, (name, m));
                return;
            }
            k += 1;
        }
        self.modules.push((name, m));
    }

    /// Runs the interpreter's program in a new scope.
    fn run_with<H: Host>(&mut self, host: &mut H, fuel: u64) -> (r: Result<u8, String>)
        requires
            old(self).inv(),
        ensures
            final(self).inv(),
            r matches Ok(n) ==> n == 0,
            r is Ok ==> final(self).memory_view().depth() == old(self).memory_view().depth() + 1,
            fuel >= 1 && old(self).memory_view().depth() < usize::MAX - 1
                && run_block(old(self).program(), old(self).memory_view().with_new_scope(), old(self).printing(), (fuel - 1) as nat) is Some
                ==> ({
                    let res = run_block(old(self).program(), old(self).memory_view().with_new_scope(), old(self).printing(), (fuel - 1) as nat).unwrap();
                    r == Ok::<u8, String>(0) && final(self).output() == old(self).output() + res.0
                        && final(self).memory_view() == res.1 && final(self).printing() == res.2
                }),
        decreases fuel, 0nat,
    {
        if fuel == 0 {
            return Err(limit_reached());
        }
        proof {
            lemma_views(self.tokens@);
        }
        match self.open_scope() {
            Ok(_) => {},
            Err(e) => {
                return Err(e);
            },
        }
        let program = crate::statics::copy_tokens(&self.tokens);
        proof {
            lemma_views(program@);
        }
        match self.eval(host, program, fuel - 1) {
            Ok(_) => Ok(0),
            Err(e) => Err(e),
        }
    }

    /// Carries out a meta line `#name value` at `tokens[ti]`: the number of newlines
    /// after a print, the number of separators between printed values, the separator
    /// text, or whether a kind of token is left out of token dumps.
    fn meta_line(&mut self, tokens: &Vec<Token>, ti: usize, token: &Token) -> (r: Result<(), String>)
        requires
            old(self).inv(),
        ensures
            final(self).inv(),
            final(self).memory_view() == old(self).memory_view(),
            final(self).program() == old(self).program(),
            final(self).output() == old(self).output(),
            final(self).module_count() == old(self).module_count(),
            ti < tokens.len() && token.view() == tokens@[ti as int].view() ==> ({
                let eff = meta_effect(old(self).printing(), views(tokens@), ti as int);
                &&& r is Ok <==> eff is Some
                &&& r is Ok ==> final(self).printing() == eff.unwrap()
            }),
    {
        proof {
            lemma_views(tokens@);
        }
        if ti == usize::MAX {
            return Err("index out of bounds".to_owned());
        }
        if str_eq(token.value.as_str(), "terminating_newlines") || str_eq(token.value.as_str(), "print_sep_spaces")
            || str_eq(token.value.as_str(), "print_sep_value") || has_prefix(token.value.as_str(), "token_block__") {
            let nx = match token_at(tokens, ti + 1) {
                Ok(t) => t,
                Err(e) => {
                    return Err(e);
                },
            };
            if str_eq(token.value.as_str(), "terminating_newlines") {
                match crate::decimal::parse_u32_str(nx.value.as_str()) {
                    Some(n) => {
                        self.meta_terminating_newlines = n;
                    },
                    None => {
                        return Err("invalid number".to_owned());
                    },
                }
            } else if str_eq(token.value.as_str(), "print_sep_spaces") {
                match crate::decimal::parse_u32_str(nx.value.as_str()) {
                    Some(n) => {
                        self.meta_print_sep_spaces = n;
                    },
                    None => {
                        return Err("invalid number".to_owned());
                    },
                }
            } else if str_eq(token.value.as_str(), "print_sep_value") {
                match quoted_inner_exec(nx.value.as_str()) {
                    Some(x) => {
                        self.meta_print_sep_value = string_of(&x);
                    },
                    None => {
                        return Err("invalid string".to_owned());
                    },
                }
            } else {
                let v = drop_chars(token.value.as_str(), 13);
                self.token_block.insert(v, str_eq(nx.value.as_str(), "true"));
            }
        }
        Ok(())
    }


    /// Whether the token before the `(` at `tokens[i]` leads to a function.
    fn calls_function(&self, tokens: &Vec<Token>, i: usize, fuel: u64) -> (r: bool)
        requires
            self.inv(),
        ensures
            r == (1 <= i <= tokens.len() && ({
                let t = tokens@[i - 1].view();
                let v = chase(self.memory_view(), TokenView { value: dollar_dropped(t.value), ..t }, Seq::empty(), fuel as nat);
                v is Some && v.unwrap().id == crate::statics::FUN
            })),
    {
        if i == 0 || i - 1 >= tokens.len() {
            return false;
        }
        match self.deref(tokens[i - 1].clone(), fuel) {
            Ok(t) => t.id == crate::statics::FUN,
            Err(_) => false,
        }
    }

    /// Carries out a keyword statement at `tokens[token_index]` other than `print`,
    /// `log`, `return`, `break` and `continue`. Gives where evaluation goes on.
    #[verifier::rlimit(60)]
    #[verifier::loop_isolation(false)]
    fn keyword<H: Host>(&mut self, host: &mut H, tokens: &Vec<Token>, token_index: usize, v: &str, fuel: u64) -> (r: Result<usize, String>)
        requires
            old(self).inv(),
            token_index < usize::MAX - 2,
        ensures
            final(self).inv(),
            final(self).memory_view().depth() == old(self).memory_view().depth(),
            memory_keyword(v@) && fuel > 0 && keyword_effect(old(self).memory_view(), views(tokens@), token_index as int, v@) is Some
                ==> ({
                    let eff = keyword_effect(old(self).memory_view(), views(tokens@), token_index as int, v@).unwrap();
                    r == Ok::<usize, String>(eff.0 as usize) && final(self).memory_view() == eff.1
                        && Parser::keeps_program_and_output(*old(self), *final(self))
                        && final(self).module_count() == old(self).module_count()
                }),
        decreases fuel, 0nat,
    {
        proof {
            reveal_strlit("dumpscope");
            reveal_strlit("rm");
            reveal_strlit("garbage");
            reveal_strlit("global");
            reveal_strlit("local");
            lemma_views(tokens@);
            assert("dumpscope"@[0] != "rm"@[0] && "dumpscope"@[0] != "garbage"@[0]);
            assert("dumpscope"@[0] != "global"@[0] && "dumpscope"@[0] != "local"@[0]);
            assert("garbage"@[1] != "global"@[1] && "garbage"@[0] != "local"@[0]);
            assert("rm"@[0] != "global"@[0] && "rm"@[0] != "local"@[0] && "rm"@[0] != "garbage"@[0]);
            assert(!memory_keyword("dumpscope"@));
        }
        if fuel == 0 {
            return Err(limit_reached());
        }
        let ghost m0 = self.memory_view();
        let mut token_index = token_index;
        if str_eq(v, "dumpscope") {
            token_index = match self.dumpscope(host, token_index, tokens) {
                Ok(n) => n,
                Err(e) => {
                    return Err(e);
                },
            };
        } else if str_eq(v, "global") || str_eq(v, "local") {
            let nx = match token_at(tokens, token_index + 1) {
                Ok(t) => t,
                Err(e) => {
                    return Err(e);
                },
            };
            if nx.id == crate::statics::REF {
                let f: u8 = if str_eq(v, "global") { 3 } else { 0 };
                self.memory.flag_var(nx.value, f);
            }
        } else if str_eq(v, "rm") {
            let nx = match token_at(tokens, token_index + 1) {
                Ok(t) => t,
                Err(e) => {
                    return Err(e);
                },
            };
            proof {
                crate::laws::law_scopes_removal_depth(self.memory.view(), nx.value@);
            }
            self.memory.rm(nx.value.as_str());
            token_index += 1;
        } else if str_eq(v, "garbage") {
            let nx = match token_at(tokens, token_index + 1) {
                Ok(t) => t,
                Err(e) => {
                    return Err(e);
                },
            };
            if nx.id == crate::statics::NLN {
                self.memory.clear();
                assert(self.memory_view().scopes =~= cleared(m0).scopes);
            } else {
                proof {
                    crate::laws::law_scopes_removal_depth(self.memory.view(), nx.value@);
                }
                self.memory.garbage(nx.value.as_str());
                token_index += 1;
            }
        } else if str_eq(v, "dumptoks") {
            let shown = match self.__filter(tokens) {
                Ok(x) => x,
                Err(e) => {
                    return Err(e);
                },
            };
            match tokens_text(&shown) {
                Some(x) => self.emit_line(host, x.as_str()),
                None => {
                    return Err("unknown token kind".to_owned());
                },
            }
        } else if str_eq(v, "dumplc") {
            let nx = match token_at(tokens, token_index + 1) {
                Ok(t) => t,
                Err(e) => {
                    return Err(e);
                },
            };
            let d = match self.derefb(&nx, fuel) {
                Ok(x) => x,
                Err(e) => {
                    return Err(e);
                },
            };
            if d.id > crate::statics::PTR {
                return Err("unknown token kind".to_owned());
            }
            let head = crate::text::joined(crate::colors::INTERPRETER_DEBUG_BRIGHTPINK, d.display().as_str());
            let head = crate::text::joined(head.as_str(), "\x1b[0m");
            self.emit_line(host, head.as_str());
            match &d.list {
                Some(l) => match tokens_text(l) {
                    Some(x) => self.emit_line(host, x.as_str()),
                    None => {
                        return Err("unknown token kind".to_owned());
                    },
                },
                None => {
                    return Err("invalid list".to_owned());
                },
            }
            token_index += 1;
        } else if str_eq(v, "dumpflags") {
            let dumps = self.memory.dump_flags();
            let ghost m0 = self.memory_view();
            let mut k: usize = 0;
            while k < dumps.len()
                invariant
                    k <= dumps.len(),
                    self.inv(),
                    self.memory_view() == m0,
                decreases dumps.len() - k,
            {
                let lines = &dumps[k];
                let mut j: usize = 0;
                while j < lines.len()
                    invariant
                        j <= lines.len(),
                        self.inv(),
                        self.memory_view() == m0,
                    decreases lines.len() - j,
                {
                    if j == 0 {
                        self.emit(host, "\n");
                    }
                    self.emit_line(host, lines[j].as_str());
                    j += 1;
                }
                k += 1;
            }
            self.emit(host, "\n");
        } else if str_eq(v, "linkup") {
            let nx = match token_at(tokens, token_index + 1) {
                Ok(t) => t,
                Err(e) => {
                    return Err(e);
                },
            };
            let ftoks = match read_in_file(host, nx.value.as_str()) {
                Ok(x) => x,
                Err(e) => {
                    return Err(e);
                },
            };
            match self.eval(host, ftoks, fuel - 1) {
                Ok(_) => {},
                Err(e) => {
                    return Err(e);
                },
            }
            token_index += 1;
        } else if str_eq(v, "module") {
            let nx = match token_at(tokens, token_index + 1) {
                Ok(t) => t,
                Err(e) => {
                    return Err(e);
                },
            };
            let vname = nx.value;
            let ftoks = match read_in_file(host, vname.as_str()) {
                Ok(x) => x,
                Err(e) => {
                    return Err(e);
                },
            };
            let mut modu = Parser::new(ftoks);
            match modu.run_with(host, fuel - 1) {
                Ok(_) => {},
                Err(e) => {
                    return Err(e);
                },
            }
            self.insert_module(copy_str(vname.as_str()), modu.memory);
            self.memory.flag_var(copy_str(vname.as_str()), 3u8);
            match self.assign(vname.as_str(), Token::newsb(crate::statics::MOD, vname.as_str())) {
                Ok(_) => {},
                Err(e) => {
                    return Err(e);
                },
            }
            self.memory.set_protection(vname.as_str(), 1u8);
            token_index += 1;
        } else if str_eq(v, "private") {
            let nx = match token_at(tokens, token_index + 1) {
                Ok(t) => t,
                Err(e) => {
                    return Err(e);
                },
            };
            self.memory.inter_flag_set(nx.value.as_str(), 1u8);
            token_index += 1;
        }
        Ok(token_index)
    }

    /// Carries out a member access at the point `tokens[ti]` when the member is valid
    /// for the value before it: the member's value takes the place of the value, the
    /// point and the member. Gives where evaluation goes on.
    #[verifier::loop_isolation(false)]
    fn member<H: Host>(&mut self, host: &mut H, tokens: &mut Vec<Token>, ti: usize, fuel: u64) -> (r: Result<usize, String>)
        requires
            old(self).inv(),
        ensures
            final(self).inv(),
            final(self).memory_view().depth() == old(self).memory_view().depth(),
            fuel == 0 || ti == 0 || ti + 1 >= old(tokens).len() ==> r is Err,
            ({
                let s = views(old(tokens)@);
                let k = ti as int;
                let pd = derefb_view(old(self).memory_view(), s[k - 1], fuel as nat);
                fuel >= 1 && 1 <= k && k + 1 < s.len() && ti < usize::MAX - 1 && pd is Some
                && (pd.unwrap().data_type == crate::statics::DT_OBJ ==> pd.unwrap().dict is Some)
                && !names_member(old(self).BINDINGS.view(), pd.unwrap(), s[k + 1].value)
                ==> r == Ok::<usize, String>(ti) && final(tokens)@ == old(tokens)@ && *final(self) == *old(self)
            }),
        decreases fuel, 0nat,
    {
        proof {
            lemma_views(tokens@);
        }
        if fuel == 0 {
            return Err(limit_reached());
        }
        if ti == 0 || ti >= usize::MAX - 1 {
            return Err("index out of bounds".to_owned());
        }
        let prev = match token_at(tokens, ti - 1) {
            Ok(t) => t,
            Err(e) => {
                return Err(e);
            },
        };
        let next = match token_at(tokens, ti + 1) {
            Ok(t) => t,
            Err(e) => {
                return Err(e);
            },
        };
        let pd = match self.derefb(&prev, fuel) {
            Ok(x) => x,
            Err(e) => {
                return Err(e);
            },
        };
        if pd.data_type == crate::statics::DT_OBJ && pd.dict.is_none() {
            return Err("invalid object".to_owned());
        }
        if !self.BINDINGS.check_valid(&pd, next.value.as_str()) {
            return Ok(ti);
        }
        let oi = ti - 1;
        let (ni, tok, ntoks) = match self.execute(host, tokens.clone(), ti, fuel - 1) {
            Ok(x) => x,
            Err(e) => {
                return Err(e);
            },
        };
        *tokens = ntoks;
        let mut i = ni;
        if i == 0 {
            return Err("index out of bounds".to_owned());
        }
        match put_at(tokens, i - 1, tok) {
            Ok(_) => {},
            Err(e) => {
                return Err(e);
            },
        }
        match take_at(tokens, i) {
            Ok(_) => {},
            Err(e) => {
                return Err(e);
            },
        }
        match take_at(tokens, i) {
            Ok(_) => {},
            Err(e) => {
                return Err(e);
            },
        }
        i -= 1;
        while oi < i
            decreases i,
        {
            match take_at(tokens, oi) {
                Ok(_) => {},
                Err(e) => {
                    return Err(e);
                },
            }
            i -= 1;
        }
        Ok(i)
    }

    /// Runs the `while` loop (`is_while`) or the `for` loop at `tokens[i]` (see
    /// `eval_while_loop` and `eval_for_loop`). Gives the number of tokens afterwards.
    fn run_loop<H: Host>(&mut self, host: &mut H, tokens: &mut Vec<Token>, i: usize, fuel: u64, is_while: bool)
        -> (r: Result<usize, String>)
        requires
            old(self).inv(),
        ensures
            final(self).inv(),
            final(self).memory_view().depth() == old(self).memory_view().depth(),
            ({
                let s = views(old(tokens)@);
                let k = i as int;
                let le = loop_effect(is_while, s[k].list.unwrap(), old(self).memory_view(), old(self).printing(), (fuel + 1) as nat);
                1 <= k < s.len() && s[k].id == crate::statics::CTL && s[k].list is Some && le is Some
                ==> r == Ok::<usize, String>((s.len() - 1) as usize) && views(final(tokens)@) == s.remove(k - 1)
                    && final(self).output() == old(self).output() + le.unwrap().0
                    && final(self).memory_view() == le.unwrap().1 && final(self).printing() == le.unwrap().2
            }),
        decreases fuel, 1nat,
    {
        proof {
            lemma_views(tokens@);
        }
        let ghost s0 = views(tokens@);
        proof {
            let k = i as int;
            if 1 <= k < s0.len() && s0[k].list is Some {
                let b = s0[k].list.unwrap();
                if loop_effect(is_while, b, self.memory_view(), self.printing(), (fuel + 1) as nat) is Some {
                    if is_while {
                        lemma_while_effect(b, self.memory_view(), self.printing(), (fuel + 1) as nat);
                    } else {
                        lemma_for_effect(b, self.memory_view(), self.printing(), (fuel + 1) as nat);
                    }
                }
            }
        }
        if is_while {
            match self.eval_while_loop(host, i, tokens, fuel) {
                Ok(_) => {},
                Err(e) => {
                    return Err(e);
                },
            }
        } else {
            match self.eval_for_loop(host, i, tokens, fuel) {
                Ok(_) => {},
                Err(e) => {
                    return Err(e);
                },
            }
        }
        proof {
            lemma_views(tokens@);
            if 1 <= i < s0.len() {
                assert(s0.remove(i - 1).len() == s0.len() - 1);
            }
        }
        Ok(tokens.len())
    }

    /// Carries out the `if` block (`is_if`) or the `else` block at `tokens[i]`: an `if`
    /// block runs where its header holds, an `else` block where no `if` block ran before
    /// it (`cflag`). Gives the number of tokens afterwards and whether an `if` block ran.
    fn branch<H: Host>(&mut self, host: &mut H, tokens: &mut Vec<Token>, i: usize, tokens_length: usize, cflag: bool,
        fuel: u64, is_if: bool) -> (r: Result<(usize, bool), String>)
        requires
            old(self).inv(),
        ensures
            final(self).inv(),
            final(self).memory_view().depth() == old(self).memory_view().depth(),
            ({
                let s = views(old(tokens)@);
                let k = i as int;
                let st = control_step(s, k, old(self).memory_view(), old(self).printing(), cflag, (fuel + 1) as nat);
                k < tokens_length == old(tokens).len() && s[k].id == crate::statics::CTL
                && (s[k].value == "ifblock"@ || s[k].value == "elseblock"@)
                && (is_if <==> s[k].value == "ifblock"@) && st is Some
                ==> r == Ok::<(usize, bool), String>((st.unwrap().0.len() as usize, st.unwrap().4))
                    && views(final(tokens)@) == st.unwrap().0
                    && final(self).output() == old(self).output() + st.unwrap().1
                    && final(self).memory_view() == st.unwrap().2
                    && final(self).printing() == st.unwrap().3
            }),
        decreases fuel, 1nat,
    {
        proof {
            reveal_strlit("ifblock");
            reveal_strlit("elseblock");
            assert("ifblock"@[0] != "elseblock"@[0]);
            lemma_views(tokens@);
            assert(self.output() + Seq::<Seq<char>>::empty() =~= self.output());
            if (i as int) < tokens@.len() {
                let s = views(tokens@);
                if s[i as int].list is Some {
                    lemma_first_star_bound(s[i as int].list.unwrap());
                }
            }
        }
        let ghost s0 = views(tokens@);
        if is_if {
            let x = match self.eval_if_block(host, i, tokens, fuel) {
                Ok(x) => x,
                Err(e) => {
                    return Err(e);
                },
            };
            proof {
                lemma_views(tokens@);
                if x.1 && 1 <= i <= s0.len() {
                    assert(s0.remove(i - 1).len() == s0.len() - 1);
                }
            }
            Ok((tokens.len(), x.1))
        } else if cflag {
            Ok((tokens_length, cflag))
        } else {
            match self.eval_else_block(host, i, tokens, fuel) {
                Ok(_) => {},
                Err(e) => {
                    return Err(e);
                },
            }
            proof {
                lemma_views(tokens@);
                if 1 <= i <= s0.len() {
                    assert(s0.remove(i - 1).len() == s0.len() - 1);
                }
            }
            Ok((tokens.len(), cflag))
        }
    }

    /// Runs the statement at `tokens[token_index]` (see `eval`): gives where the next
    /// statement starts, the count of tokens and whether an `if` branch was taken, or what
    /// the statement ends the run with (`return`, `break`, `continue`).
    #[verifier::rlimit(100)]
    #[verifier::spinoff_prover]
    #[verifier::loop_isolation(false)]
    fn statement<H: Host>(&mut self, host: &mut H, tokens: &mut Vec<Token>, token_index: usize,
        tokens_length: usize, cflag: bool, fuel: u64) -> (r: Result<Flow, String>)
        requires
            old(self).inv(),
            fuel >= 1,
        ensures
            final(self).inv(),
            final(self).memory_view().depth() == old(self).memory_view().depth(),
            ({
                let s = views(old(tokens)@);
                let k = token_index as int;
                let j = next_newline(s, k + 1);
                let out = print_out(old(self).memory_view(), s, k + 1, j, old(self).printing().separator());
                k < tokens_length == old(tokens).len() && old(tokens).len() < usize::MAX - 2
                && s[k].id == crate::statics::KEY && s[k].value == "print"@ && j < s.len()
                && fuel > 2 * s.len() + 5 && out is Some
                ==> r == Ok::<Flow, String>(Flow::Next((j + 1) as usize, tokens_length, cflag))
                    && final(tokens)@ == old(tokens)@
                    && final(self).output() == old(self).output() + out.unwrap()
                        + seq![repeated("\n"@, old(self).meta_terminating_newlines as nat)]
                    && final(self).printing() == old(self).printing()
                    && final(self).memory_view() == old(self).memory_view()
                    && final(self).module_count() == old(self).module_count()
                    && final(self).program() == old(self).program()
            }),
            ({
                let s = views(old(tokens)@);
                let k = token_index as int;
                let j = next_newline(s, k + 1);
                let t = expr_view(old(self).memory_view(), s.subrange(k + 1, j));
                1 <= k < tokens_length == old(tokens).len() && old(tokens).len() < usize::MAX - 2
                && s[k].id == crate::statics::ASS && s[k].value == "="@ && s[k - 1].id == crate::statics::REF
                && j < s.len() && fuel > s.len() + 3 && t is Some && assignable(old(self).memory_view(), s[k - 1].value)
                ==> r == Ok::<Flow, String>(Flow::Next((k + 1) as usize, tokens_length, cflag))
                    && final(tokens)@ == old(tokens)@
                    && final(self).memory_view() == old(self).memory_view().assign(s[k - 1].value, t.unwrap())
                    && Parser::keeps_program_and_output(*old(self), *final(self))
                    && final(self).module_count() == old(self).module_count()
            }),
            ({
                let s = views(old(tokens)@);
                let k = token_index as int;
                let t = compound_value(old(self).memory_view(), s[k - 1].value, s[k].value, s[k + 1]);
                1 <= k < tokens_length == old(tokens).len() && old(tokens).len() < usize::MAX - 2
                && s[k].id == crate::statics::ASS && s[k].value != "="@ && s[k - 1].id == crate::statics::REF
                && k + 1 < s.len() && fuel >= 2 && t is Some && assignable(old(self).memory_view(), s[k - 1].value)
                ==> r == Ok::<Flow, String>(Flow::Next((k + 1) as usize, tokens_length, cflag))
                    && final(tokens)@ == old(tokens)@
                    && final(self).memory_view() == old(self).memory_view().assign(s[k - 1].value, t.unwrap())
                    && Parser::keeps_program_and_output(*old(self), *final(self))
                    && final(self).module_count() == old(self).module_count()
            }),
            ({
                let s = views(old(tokens)@);
                let k = token_index as int;
                let v = headed_view(old(self).memory_view(), s.subrange(k + 1, next_newline(s, k + 1)));
                k < tokens_length == old(tokens).len() && old(tokens).len() < usize::MAX - 2
                && s[k].id == crate::statics::KEY && s[k].value == "return"@ && fuel > s.len() + 2 && v is Some
                ==> (r matches Ok(Flow::Done(t)) && t.view() == v.unwrap())
                    && final(tokens)@ == old(tokens)@ && *final(self) == *old(self)
            }),
            ({
                let s = views(old(tokens)@);
                let k = token_index as int;
                k < tokens_length == old(tokens).len() && old(tokens).len() < usize::MAX - 2
                && s[k].id == crate::statics::KEY && (s[k].value == "break"@ || s[k].value == "continue"@)
                ==> (r matches Ok(Flow::Done(t))
                        && t.view() == signal_view(if s[k].value == "break"@ { "BREAK"@ } else { "CONTINUE"@ }))
                    && final(tokens)@ == old(tokens)@ && *final(self) == *old(self)
            }),
            ({
                let s = views(old(tokens)@);
                let k = token_index as int;
                let eff = keyword_effect(old(self).memory_view(), s, k, s[k].value);
                k < tokens_length == old(tokens).len() && old(tokens).len() < usize::MAX - 2
                && s[k].id == crate::statics::KEY && memory_keyword(s[k].value) && eff is Some && fuel >= 2
                ==> r == Ok::<Flow, String>(Flow::Next((eff.unwrap().0 + 1) as usize, tokens_length, cflag))
                    && final(tokens)@ == old(tokens)@
                    && final(self).memory_view() == eff.unwrap().1
                    && Parser::keeps_program_and_output(*old(self), *final(self))
                    && final(self).module_count() == old(self).module_count()
            }),
            ({
                let s = views(old(tokens)@);
                let k = token_index as int;
                k < tokens_length == old(tokens).len() && old(tokens).len() < usize::MAX - 2
                && s[k].id == crate::statics::FUN && assignable(old(self).memory_view(), s[k].value)
                ==> r == Ok::<Flow, String>(Flow::Next((k + 1) as usize, tokens_length, cflag))
                    && final(tokens)@ == old(tokens)@
                    && final(self).memory_view() == old(self).memory_view().assign(s[k].value, s[k])
                    && Parser::keeps_program_and_output(*old(self), *final(self))
            }),
            ({
                let s = views(old(tokens)@);
                let k = token_index as int;
                let ca = call_assignment(s, k, old(self).memory_view(), old(self).printing(), (fuel - 1) as nat);
                k < tokens_length == old(tokens).len() && old(tokens).len() < usize::MAX - 2
                && s[k].id == crate::statics::ASS && ca is Some
                ==> r == Ok::<Flow, String>(Flow::Next((k + 1) as usize, final(tokens).len(), cflag))
                    && views(final(tokens)@) == ca.unwrap().0
                    && final(self).output() == old(self).output() + ca.unwrap().1
                    && final(self).memory_view() == ca.unwrap().2
                    && final(self).printing() == ca.unwrap().3
            }),
            ({
                let s = views(old(tokens)@);
                let k = token_index as int;
                let cp = first_par(s, k + 1);
                let ce = call_effect(s, k, old(self).memory_view(), old(self).printing(), fuel as nat);
                k < tokens_length == old(tokens).len() && old(tokens).len() < usize::MAX - 2
                && s[k].id == crate::statics::PAR && s[k].value == "("@ && ce is Some
                ==> r == Ok::<Flow, String>(Flow::Next((k + 1) as usize, final(tokens).len(), cflag))
                    && views(final(tokens)@) == s.subrange(0, k - 1) + seq![ce.unwrap().3] + s.subrange(cp + 1, s.len() as int)
                    && final(self).output() == old(self).output() + ce.unwrap().0
                    && final(self).memory_view() == ce.unwrap().1
                    && final(self).printing() == ce.unwrap().2
            }),
            ({
                let s = views(old(tokens)@);
                let k = token_index as int;
                k < tokens_length == old(tokens).len() && old(tokens).len() < usize::MAX - 2 && inert(s[k])
                ==> r == Ok::<Flow, String>(Flow::Next((k + 1) as usize, tokens_length, cflag))
                    && final(tokens)@ == old(tokens)@ && *final(self) == *old(self)
            }),
            ({
                let s = views(old(tokens)@);
                let k = token_index as int;
                let st = control_step(s, k, old(self).memory_view(), old(self).printing(), cflag, fuel as nat);
                k < tokens_length == old(tokens).len() && old(tokens).len() < usize::MAX - 2
                && s[k].id == crate::statics::CTL && st is Some
                ==> r == Ok::<Flow, String>(Flow::Next((k + 1) as usize, st.unwrap().0.len() as usize, st.unwrap().4))
                    && views(final(tokens)@) == st.unwrap().0
                    && final(self).output() == old(self).output() + st.unwrap().1
                    && final(self).memory_view() == st.unwrap().2
                    && final(self).printing() == st.unwrap().3
            }),
            ({
                let s = views(old(tokens)@);
                let k = token_index as int;
                let eff = meta_effect(old(self).printing(), s, k);
                k < tokens_length == old(tokens).len() && old(tokens).len() < usize::MAX - 2
                && s[k].id == crate::statics::MET && eff is Some
                ==> r == Ok::<Flow, String>(Flow::Next((k + 1) as usize, tokens_length, cflag))
                    && final(tokens)@ == old(tokens)@
                    && final(self).memory_view() == old(self).memory_view()
                    && final(self).printing() == eff.unwrap()
                    && final(self).program() == old(self).program()
                    && final(self).output() == old(self).output()
                    && final(self).module_count() == old(self).module_count()
            }),
        decreases fuel, 0nat,
    {
        proof {
            reveal_strlit("HALT");
            reveal_strlit("print");
            reveal_strlit("log");
            reveal_strlit("return");
            reveal_strlit("break");
            reveal_strlit("continue");
            reveal_strlit("forloop");
            reveal_strlit("ifblock");
            reveal_strlit("elseblock");
            reveal_strlit("whileloop");
            assert("forloop"@[0] != "ifblock"@[0] && "forloop"@[0] != "elseblock"@[0]);
            assert("whileloop"@[0] != "ifblock"@[0] && "whileloop"@[0] != "elseblock"@[0] && "whileloop"@[0] != "forloop"@[0]);
            reveal_strlit("rm");
            reveal_strlit("garbage");
            reveal_strlit("global");
            reveal_strlit("local");
            assert("HALT"@[0] != "print"@[0]);
            assert("HALT"@[0] != "rm"@[0] && "HALT"@[0] != "garbage"@[0] && "HALT"@[0] != "global"@[0] && "HALT"@[0] != "local"@[0]);
            assert("print"@[0] != "rm"@[0] && "print"@[0] != "garbage"@[0] && "print"@[0] != "global"@[0] && "print"@[0] != "local"@[0]);
            assert("log"@[0] != "rm"@[0] && "log"@[0] != "garbage"@[0] && "log"@[0] != "global"@[0] && "log"@[2] != "local"@[2]);
            assert("return"@[1] != "rm"@[1] && "return"@[0] != "garbage"@[0] && "return"@[0] != "global"@[0] && "return"@[0] != "local"@[0]);
            assert("break"@[0] != "rm"@[0] && "break"@[0] != "garbage"@[0] && "break"@[0] != "global"@[0] && "break"@[0] != "local"@[0]);
            assert("continue"@[0] != "rm"@[0] && "continue"@[0] != "garbage"@[0] && "continue"@[0] != "global"@[0] && "continue"@[0] != "local"@[0]);
            lemma_views(tokens@);
            if (token_index as int) < tokens@.len() {
                lemma_next_newline(views(tokens@), token_index + 1);
                let s = views(tokens@);
                let j = next_newline(s, token_index + 1);
                if flat_expr(s.subrange(token_index + 1, j)) {
                    assert(s.subrange(token_index + 1, j).len() % 2 == 1);
                    assert(j >= token_index + 2);
                }
            }
        }
        let mut token_index = token_index;
        let mut tokens_length = tokens_length;
        let mut cflag = cflag;
        let token = match token_at(tokens, token_index) {
            Ok(t) => t,
            Err(e) => {
                return Err(e);
            },
        };
        if token_index >= usize::MAX - 2 {
            return Err("index out of bounds".to_owned());
        }
        if token.id == crate::statics::MET {
            match self.meta_line(tokens, token_index, &token) {
                Ok(_) => {},
                Err(e) => {
                    return Err(e);
                },
            }
        } else if token.id == crate::statics::KEY {
            let v = token.value.as_str();
            if str_eq(v, "HALT") {
                let msg = crate::text::joined(crate::colors::ERROR_RED, "HALTING EXECUTION\x1b[0m");
                self.emit_line(host, msg.as_str());
                return Err("HALTING EXECUTION".to_owned());
            }
            if str_eq(v, "print") {
                token_index = match self.printop(host, token_index, tokens, fuel - 1) {
                    Ok(n) => n,
                    Err(e) => {
                        return Err(e);
                    },
                };
            } else if str_eq(v, "log") {
                self.emit(host, crate::colors::DEBUG_BLUE_PROGRAM_LOG);
                token_index = match self.printop(host, token_index, tokens, fuel - 1) {
                    Ok(n) => n,
                    Err(e) => {
                        return Err(e);
                    },
                };
                self.emit(host, "\x1b[39m");
            } else if str_eq(v, "return") {
                let ghost s0 = views(tokens@);
                let ghost k0 = token_index as int;
                let ghost jj = next_newline(s0, k0 + 1);
                let ghost hv = headed_view(self.memory_view(), s0.subrange(k0 + 1, jj));
                proof {
                    lemma_views(tokens@);
                    lemma_next_newline(s0, k0 + 1);
                    assert(views(Seq::<Token>::empty()) =~= s0.subrange(k0, k0));
                }
                let mut lst: Vec<Token> = Vec::new();
                while token_index < tokens_length && token_index < tokens.len()
                    invariant
                        k0 <= token_index <= jj <= s0.len(),
                        s0 == views(tokens@),
                        s0.len() == tokens@.len(),
                        views(lst@) == s0.subrange(k0, token_index as int),
                        s0[k0].id == crate::statics::KEY,
                        forall|q: int| k0 + 1 <= q < jj ==> (#[trigger] s0[q]).id != crate::statics::NLN,
                        jj < s0.len() ==> s0[jj].id == crate::statics::NLN,
                    decreases tokens.len() - token_index,
                {
                    if tokens[token_index].id == crate::statics::NLN {
                        break;
                    }
                    let x = tokens[token_index].clone();
                    let ghost before = lst@;
                    lst.push(x);
                    proof {
                        lemma_push_view_parser(before, x);
                        assert(s0[token_index as int] == tokens@[token_index as int].view());
                        assert(s0.subrange(k0, token_index + 1) =~= s0.subrange(k0, token_index as int).push(s0[token_index as int]));
                    }
                    token_index += 1;
                }
                proof {
                    if tokens_length == tokens.len() {
                        lemma_views(tokens@);
                        if (token_index as int) < jj {
                            assert(s0[token_index as int] == tokens@[token_index as int].view());
                            assert(s0[token_index as int].id != crate::statics::NLN);
                        }
                        assert(token_index as int == jj);
                        assert(views(lst@).skip(1) =~= s0.subrange(k0 + 1, jj));
                        lemma_views(lst@);
                        if hv is Some {
                            assert(s0.subrange(k0 + 1, jj).len() > 0);
                            assert(views(lst@).len() == jj - k0);
                            assert(views(lst@)[0] == s0.subrange(k0, jj)[0]);
                            assert(lst@[0].view() == s0[k0]);
                            lemma_headed_view(self.memory_view(), s0.subrange(k0 + 1, jj));
                        }
                    }
                }
                if token_index < tokens_length && token_index >= tokens.len() {
                    return Err("index out of bounds".to_owned());
                }
                let r = match self.eval_exp(host, lst, fuel - 1) {
                    Ok(x) => x,
                    Err(e) => {
                        return Err(e);
                    },
                };
                return match self.derefb(&r, fuel) {
                    Ok(t) => Ok(Flow::Done(t)),
                    Err(e) => Err(e),
                };
            } else if str_eq(v, "break") {
                return Ok(Flow::Done(Token::newsb(crate::statics::SIG, "BREAK")));
            } else if str_eq(v, "continue") {
                return Ok(Flow::Done(Token::newsb(crate::statics::SIG, "CONTINUE")));
            } else {
                token_index = match self.keyword(host, tokens, token_index, v, fuel - 1) {
                    Ok(n) => n,
                    Err(e) => {
                        return Err(e);
                    },
                };
            }
        } else if token.id == crate::statics::ASS {
            match self.assignment(host, tokens, token_index, &token, tokens_length, fuel - 1) {
                Ok(_) => {},
                Err(e) => {
                    return Err(e);
                },
            }
            tokens_length = tokens.len();
        } else if token.id == crate::statics::FUN {
            match self.assign(token.value.as_str(), token.clone()) {
                Ok(_) => {},
                Err(e) => {
                    return Err(e);
                },
            }
        } else if token_index > 0 && token.id == crate::statics::PAR && str_eq(token.value.as_str(), "(")
            && self.calls_function(tokens, token_index, fuel) {
            token_index = match self.func_call(host, token_index, tokens, fuel - 1) {
                Ok(n) => n,
                Err(e) => {
                    return Err(e);
                },
            };
            tokens_length = tokens.len();
        } else if token.id == crate::statics::DOT && tokens_length > 0 && token_index < tokens_length - 1
            && token_index + 1 < tokens.len() && tokens[token_index + 1].id == crate::statics::REF {
            token_index = match self.member(host, tokens, token_index, fuel - 1) {
                Ok(n) => n,
                Err(e) => {
                    return Err(e);
                },
            };
            tokens_length = tokens.len();
        } else if token.id == crate::statics::CTL {
            let v = token.value.as_str();
            if str_eq(v, "forloop") {
                tokens_length = match self.run_loop(host, tokens, token_index, fuel - 1, false) {
                    Ok(n) => n,
                    Err(e) => {
                        return Err(e);
                    },
                };
            } else if str_eq(v, "ifblock") || str_eq(v, "elseblock") {
                let x = match self.branch(host, tokens, token_index, tokens_length, cflag, fuel - 1, str_eq(v, "ifblock")) {
                    Ok(x) => x,
                    Err(e) => {
                        return Err(e);
                    },
                };
                tokens_length = x.0;
                cflag = x.1;
            } else if str_eq(v, "whileloop") {
                tokens_length = match self.run_loop(host, tokens, token_index, fuel - 1, true) {
                    Ok(n) => n,
                    Err(e) => {
                        return Err(e);
                    },
                };
            }
        }
        if token_index == usize::MAX {
            return Err("index out of bounds".to_owned());
        }
        Ok(Flow::Next(token_index + 1, tokens_length, cflag))
    }

    /// Runs the statement at `tokens[token_index]` (see `statement`), where `resume`
    /// says how running goes on from there: it then goes on to a point from which
    /// `resume` says the same about the rest (see `on_track`).
    #[verifier::rlimit(100)]
    #[verifier::spinoff_prover]
    fn tracked_statement<H: Host>(&mut self, host: &mut H, tokens: &mut Vec<Token>, token_index: usize,
        tokens_length: usize, cflag: bool, fuel: u64, Ghost(target): Ghost<(Seq<Seq<char>>, ScopesView, PrintSettings, Option<TokenView>)>)
        -> (r: Result<Flow, String>)
        requires
            old(self).inv(),
            fuel >= 1,
        ensures
            final(self).inv(),
            final(self).memory_view().depth() == old(self).memory_view().depth(),
            token_index < tokens_length == old(tokens).len() && old(tokens).len() < usize::MAX - 2
                && fuel > 2 * old(tokens).len() + 6
                && on_track(views(old(tokens)@), token_index as int, old(self).memory_view(), old(self).printing(), cflag,
                    fuel as nat, old(self).output(), target)
                ==> r is Ok && match r.unwrap() {
                    Flow::Next(a, b, c2) => b == final(tokens).len() && token_index < a <= b + 1
                        && final(tokens).len() <= old(tokens).len()
                        && on_track(views(final(tokens)@), a as int, final(self).memory_view(), final(self).printing(), c2,
                            fuel as nat, final(self).output(), target),
                    Flow::Done(t) => target.3 == Some(t.view()) && final(self).output() == target.0
                        && final(self).memory_view() == target.1 && final(self).printing() == target.2,
                },
        decreases fuel, 2nat,
    {
        let ghost sk = views(tokens@);
        let ghost k = token_index as int;
        let ghost out_before = self.output();
        let ghost mem_before = self.memory_view();
        let ghost pr_before = self.printing();
        let ghost good = token_index < tokens_length && tokens_length == tokens.len() && tokens.len() < usize::MAX - 2
            && fuel > 2 * tokens.len() + 6
            && on_track(sk, k, mem_before, pr_before, cflag, fuel as nat, out_before, target);
        proof {
            lemma_views(tokens@);
            if good {
                reveal(on_track);
                lemma_resume_step(sk, k, mem_before, pr_before, cflag, fuel as nat);
            }
        }
        let step = self.statement(host, tokens, token_index, tokens_length, cflag, fuel);
        proof {
            lemma_views(tokens@);
            if good {
                reveal(on_track);
                if sk[k].id == crate::statics::KEY {
                    let j = next_newline(sk, k + 1);
                    lemma_append_pieces(out_before, print_out(mem_before, sk, k + 1, j, pr_before.separator()).unwrap(),
                        repeated("\n"@, pr_before.line_ends), resume(sk, j + 1, mem_before, pr_before, cflag, fuel as nat).unwrap().0);
                }
                if sk[k].id == crate::statics::CTL {
                    let st = control_step(sk, k, mem_before, pr_before, cflag, fuel as nat);
                    let rest = resume(st.unwrap().0, k + 1, st.unwrap().2, st.unwrap().3, st.unwrap().4, fuel as nat).unwrap().0;
                    assert(out_before + st.unwrap().1 + rest =~= out_before + (st.unwrap().1 + rest));
                }
                if sk[k].id == crate::statics::ASS && call_assignment(sk, k, mem_before, pr_before, (fuel - 1) as nat) is Some {
                    let ca = call_assignment(sk, k, mem_before, pr_before, (fuel - 1) as nat).unwrap();
                    let rest = resume(ca.0, k + 1, ca.2, ca.3, cflag, fuel as nat).unwrap().0;
                    assert(out_before + ca.1 + rest =~= out_before + (ca.1 + rest));
                }
                if sk[k].id == crate::statics::PAR {
                    let cp = first_par(sk, k + 1);
                    let ce = call_effect(sk, k, mem_before, pr_before, fuel as nat);
                    let s2 = sk.subrange(0, k - 1) + seq![ce.unwrap().3] + sk.subrange(cp + 1, sk.len() as int);
                    let rest = resume(s2, k + 1, ce.unwrap().1, ce.unwrap().2, cflag, fuel as nat).unwrap().0;
                    assert(out_before + ce.unwrap().0 + rest =~= out_before + (ce.unwrap().0 + rest));
                }
            }
        }
        step
    }

    /// Runs the statements of `tokens` in turn: meta lines, keywords, assignments,
    /// function definitions and calls, members, and control blocks. Gives what a
    /// `return` gives, a signal for `break` and `continue`, else the undefined token.
    /// Tokens that `resume` reads run as it says.
    #[verifier::rlimit(60)]
    #[verifier::spinoff_prover]
    #[verifier::loop_isolation(false)]
    fn eval<H: Host>(&mut self, host: &mut H, tokens: Vec<Token>, fuel: u64) -> (r: Result<Token, String>)
        requires
            old(self).inv(),
        ensures
            final(self).inv(),
            final(self).memory_view().depth() == old(self).memory_view().depth(),
            run_block(views(tokens@), old(self).memory_view(), old(self).printing(), fuel as nat) is Some
                ==> ({
                    let res = run_block(views(tokens@), old(self).memory_view(), old(self).printing(), fuel as nat).unwrap();
                    r is Ok && r.unwrap().view() == (match res.3 { Some(t) => t, None => udf_view() })
                        && final(self).output() == old(self).output() + res.0 && final(self).memory_view() == res.1
                        && final(self).printing() == res.2
                }),
        decreases fuel, 3nat,
    {
        proof {
            reveal(run_block);
        }
        if fuel == 0 {
            return Err(limit_reached());
        }
        let ghost d0 = self.memory_view().depth();
        let ghost t0 = tokens@;
        let ghost sv = views(t0);
        let ghost p0 = self.printing();
        let ghost o0 = self.output();
        let ghost m0 = self.memory_view();
        let ghost pp = run_block(sv, m0, p0, fuel as nat) is Some;
        let ghost res = run_block(sv, m0, p0, fuel as nat).unwrap();
        let ghost target = (o0 + res.0, res.1, res.2, res.3);
        proof {
            reveal(run_block);
            lemma_views(t0);
            if pp {
                reveal(on_track);
            }
        }
        let mut tokens = tokens;
        let mut token_index: usize = 0;
        let mut tokens_length = tokens.len();
        let mut cflag = false;
        let mut budget = fuel;
        loop
            invariant
                self.inv(),
                self.memory_view().depth() == d0,
                fuel > 0,
                pp ==> fuel > 2 * t0.len() + 6 && t0.len() < usize::MAX - 2,
                pp ==> tokens.len() <= t0.len() && tokens_length == tokens.len() && token_index <= tokens.len() + 1,
                pp ==> on_track(views(tokens@), token_index as int, self.memory_view(), self.printing(), cflag, fuel as nat,
                    self.output(), target),
                pp ==> budget as int >= fuel - token_index,
            decreases budget,
        {
            if budget == 0 {
                return Err(limit_reached());
            }
            budget -= 1;
            if token_index >= tokens_length {
                proof {
                    if pp {
                        lemma_views(tokens@);
                        reveal(on_track);
                        assert(self.output() + Seq::<Seq<char>>::empty() =~= self.output());
                    }
                }
                break;
            }
            let step = self.tracked_statement(host, &mut tokens, token_index, tokens_length, cflag, fuel, Ghost(target));
            match step {
                Ok(Flow::Next(a, b, c)) => {
                    token_index = a;
                    tokens_length = b;
                    cflag = c;
                },
                Ok(Flow::Done(t)) => {
                    return Ok(t);
                },
                Err(e) => {
                    return Err(e);
                },
            }
        }
        Ok(self.UDFTOK.clone())
    }

    /// Carries out the assignment whose operator is `token` at `tokens[ti]`: `=` stores
    /// the value of the rest of the line (after calling a function it names), an
    /// operator such as `+=` combines the variable's value with the next one; the
    /// target is a variable or an indexed list or dictionary.
    #[verifier::rlimit(60)]
    #[verifier::spinoff_prover]
    #[verifier::loop_isolation(false)]
    fn assignment<H: Host>(&mut self, host: &mut H, tokens: &mut Vec<Token>, ti: usize, token: &Token, tokens_length: usize, fuel: u64) -> (r: Result<(), String>)
        requires
            old(self).inv(),
        ensures
            final(self).inv(),
            final(self).memory_view().depth() == old(self).memory_view().depth(),
            ({
                let s = views(old(tokens)@);
                let ca = call_assignment(s, ti as int, old(self).memory_view(), old(self).printing(), fuel as nat);
                tokens_length == old(tokens).len() && old(tokens).len() < usize::MAX - 2 && token.view() == s[ti as int]
                && ca is Some
                ==> r is Ok && views(final(tokens)@) == ca.unwrap().0
                    && final(self).output() == old(self).output() + ca.unwrap().1
                    && final(self).memory_view() == ca.unwrap().2 && final(self).printing() == ca.unwrap().3
            }),
            ({
                let s = views(old(tokens)@);
                let j = next_newline(s, ti + 1);
                let e = s.subrange(ti + 1, j);
                let m = old(self).memory_view();
                1 <= ti && j < s.len() && tokens_length == old(tokens).len() && old(tokens).len() < usize::MAX - 2
                && token.view() == s[ti as int] && s[ti as int].value == "="@ && s[ti - 1].id == crate::statics::REF
                && expr_view(m, e) is Some && assignable(m, s[ti - 1].value) && fuel > e.len() + 2
                ==> r is Ok && final(tokens)@ == old(tokens)@
                    && final(self).memory_view() == m.assign(s[ti - 1].value, expr_view(m, e).unwrap())
                    && Parser::keeps_program_and_output(*old(self), *final(self))
                    && final(self).module_count() == old(self).module_count()
            }),
            ({
                let s = views(old(tokens)@);
                let m = old(self).memory_view();
                let t = compound_value(m, s[ti - 1].value, s[ti as int].value, s[ti + 1]);
                1 <= ti && ti + 1 < s.len() && tokens_length == old(tokens).len() && old(tokens).len() < usize::MAX - 2
                && token.view() == s[ti as int] && s[ti as int].value != "="@ && s[ti - 1].id == crate::statics::REF
                && t is Some && assignable(m, s[ti - 1].value) && fuel > 0
                ==> r is Ok && final(tokens)@ == old(tokens)@
                    && final(self).memory_view() == m.assign(s[ti - 1].value, t.unwrap())
                    && Parser::keeps_program_and_output(*old(self), *final(self))
                    && final(self).module_count() == old(self).module_count()
            }),
        decreases fuel, 0nat,
    {
        let ghost s0 = views(tokens@);
        let ghost jn = next_newline(s0, ti + 1);
        let ghost e0 = s0.subrange(ti + 1, jn);
        let ghost m0 = self.memory_view();
        let ghost ok = 1 <= ti && jn < s0.len() && tokens_length == tokens.len() && tokens.len() < usize::MAX - 2
            && token.view() == s0[ti as int] && s0[ti as int].value == "="@ && s0[ti - 1].id == crate::statics::REF
            && expr_view(m0, e0) is Some && assignable(m0, s0[ti - 1].value) && fuel > e0.len() + 2;
        let ghost self0 = *self;
        let ghost fc = tokens_length == tokens.len() && tokens.len() < usize::MAX - 2 && token.view() == s0[ti as int]
            && call_assignment(s0, ti as int, m0, self.printing(), fuel as nat) is Some;
        let ghost ca = call_assignment(s0, ti as int, m0, self.printing(), fuel as nat).unwrap();
        let ghost cef = call_effect(s0, ti + 2, m0, self.printing(), fuel as nat).unwrap();
        let ghost o_in = self.output();
        let ghost cok = 1 <= ti && ti + 1 < s0.len() && tokens_length == tokens.len() && tokens.len() < usize::MAX - 2
            && token.view() == s0[ti as int] && s0[ti as int].value != "="@ && s0[ti - 1].id == crate::statics::REF
            && compound_value(m0, s0[ti - 1].value, s0[ti as int].value, s0[ti + 1]) is Some
            && assignable(m0, s0[ti - 1].value) && fuel > 0;
        proof {
            lemma_views(tokens@);
            if cok {
                lemma_operand_deref(m0, s0[ti + 1], fuel as nat);
            }
            if ok {
                lemma_next_newline(s0, ti + 1);
                lemma_expr_tokens(m0, e0);
                lemma_expr_first(m0, e0, fuel as nat);
                reveal_strlit("=");
                assert(e0.len() >= 1);
            }
        }
        if fuel == 0 {
            return Err(limit_reached());
        }
        if ti == 0 || ti >= usize::MAX - 2 {
            return Err("index out of bounds".to_owned());
        }
        let prev = match token_at(tokens, ti - 1) {
            Ok(t) => t,
            Err(e) => {
                return Err(e);
            },
        };
        let varname = copy_str(prev.value.as_str());
        let operand = token.value.as_str();
        let subscript = prev.id == crate::statics::IDX;
        let imt: usize = if ti > 1 { ti - 2 } else { 0 };
        let mut tokens_length = tokens_length;
        let compound = !str_eq(operand, "=");
        let (value, v2): (Token, String) = if !compound {
            let mut r = match token_at(tokens, ti + 1) {
                Ok(t) => t,
                Err(e) => {
                    return Err(e);
                },
            };
            let rd = match self.derefb(&r, fuel) {
                Ok(x) => x,
                Err(e) => {
                    return Err(e);
                },
            };
            if rd.id == crate::statics::FUN {
                let p2 = match token_at(tokens, ti + 2) {
                    Ok(t) => t,
                    Err(e) => {
                        return Err(e);
                    },
                };
                if p2.id == crate::statics::PAR && str_eq(p2.value.as_str(), "(") {
                    proof {
                        if fc {
                            lemma_first_par_from(s0, ti + 3);
                        }
                    }
                    match self.func_call(host, ti + 2, tokens, fuel - 1) {
                        Ok(_) => {},
                        Err(e) => {
                            return Err(e);
                        },
                    }
                    tokens_length = tokens.len();
                    proof {
                        if fc {
                            lemma_views(tokens@);
                            assert(views(tokens@) == ca.0);
                            assert(ca.0[ti + 1] == cef.3);
                        }
                    }
                    r = match token_at(tokens, ti + 1) {
                        Ok(t) => t,
                        Err(e) => {
                            return Err(e);
                        },
                    };
                }
            }
            proof {
                if ok {
                    assert(r.view() == e0[0]);
                }
            }
            let mut lst: Vec<Token> = Vec::new();
            let ghost r0 = r;
            lst.push(r);
            proof {
                if ok {
                    lemma_views(lst@);
                    assert(views(lst@) =~= s0.subrange(ti + 1, ti + 2));
                }
            }
            let mut ind = ti + 2;
            while ind < tokens_length
                invariant
                    ok ==> ti + 2 <= ind <= jn && views(lst@) == s0.subrange(ti + 1, ind as int)
                        && tokens@ == old(tokens)@ && *self == self0,
                    fc ==> ind == ti + 2 && lst@.len() == 1 && lst@[0].view() == cef.3 && views(tokens@) == ca.0
                        && tokens_length == tokens.len(),
                decreases tokens_length - ind,
            {
                proof {
                    if ok {
                        lemma_views(tokens@);
                        lemma_next_newline(s0, ti + 1);
                        if (ind as int) == jn {
                            assert(s0[jn].id == crate::statics::NLN);
                        }
                    }
                    if fc {
                        lemma_views(tokens@);
                        let cp = first_par(s0, ti + 3);
                        assert(ca.0[ti + 2] == s0[cp + 1]);
                        assert(tokens@[ti + 2].view() == ca.0[ti + 2]);
                        assert(tokens@[ti + 2].id == crate::statics::NLN);
                    }
                }
                let x = match token_at(tokens, ind) {
                    Ok(t) => t,
                    Err(e) => {
                        return Err(e);
                    },
                };
                if x.id == crate::statics::NLN {
                    break;
                }
                let ghost before = lst@;
                lst.push(x);
                proof {
                    lemma_push_view_parser(before, x);
                    if ok {
                        assert(s0.subrange(ti + 1, ind + 1) =~= s0.subrange(ti + 1, ind as int).push(s0[ind as int]));
                    }
                }
                ind += 1;
            }
            proof {
                if ok {
                    assert(views(lst@) == e0);
                    lemma_views(lst@);
                }
            }
            match self.eval_exp(host, lst, fuel - 1) {
                Ok(x) => (x, String::new()),
                Err(e) => {
                    return Err(e);
                },
            }
        } else {
            let nx = match token_at(tokens, ti + 1) {
                Ok(t) => t,
                Err(e) => {
                    return Err(e);
                },
            };
            let nd = match self.derefb(&nx, fuel) {
                Ok(x) => x,
                Err(e) => {
                    return Err(e);
                },
            };
            let mut v2 = nd.value;
            if nd.id == crate::statics::FUN {
                match self.func_call(host, ti + 2, tokens, fuel - 1) {
                    Ok(_) => {},
                    Err(e) => {
                        return Err(e);
                    },
                }
                let nx2 = match token_at(tokens, ti + 1) {
                    Ok(t) => t,
                    Err(e) => {
                        return Err(e);
                    },
                };
                v2 = match self.derefb(&nx2, fuel) {
                    Ok(x) => x.value,
                    Err(e) => {
                        return Err(e);
                    },
                };
            }
            (self.__fault(), v2)
        };
        if subscript {
            let base = match token_at(tokens, imt) {
                Ok(t) => t,
                Err(e) => {
                    return Err(e);
                },
            };
            let name = copy_str(base.value.as_str());
            let is_ref = base.id == crate::statics::REF;
            let mut tgt = match self.derefb(&base, fuel) {
                Ok(x) => x,
                Err(e) => {
                    return Err(e);
                },
            };
            let sub = match token_at(tokens, imt + 1) {
                Ok(t) => t,
                Err(e) => {
                    return Err(e);
                },
            };
            let sl = match &sub.list {
                Some(l) => l.clone(),
                None => {
                    return Err("invalid index".to_owned());
                },
            };
            let ix = match self.eval_exp(host, sl, fuel - 1) {
                Ok(x) => x,
                Err(e) => {
                    return Err(e);
                },
            };
            if !is_well_made(&tgt) {
                return Err("invalid container".to_owned());
            }
            if tgt.id == crate::statics::LST {
                let index = match parse_usize_str(ix.value.as_str()) {
                    Some(n) => n,
                    None => {
                        return Err("invalid index".to_owned());
                    },
                };
                let nv = if compound {
                    let va = match tgt.get(index) {
                        Ok(x) => x.value,
                        Err(e) => {
                            return Err(e);
                        },
                    };
                    match self.assignment_operation(host, operand, va, copy_str(v2.as_str())) {
                        Ok(x) => x,
                        Err(e) => {
                            return Err(e);
                        },
                    }
                } else {
                    value
                };
                let _ = tgt.set(index, nv);
            } else {
                let nv = if compound {
                    let va = match tgt.getd(copy_str(ix.value.as_str())) {
                        Ok(x) => x.value,
                        Err(e) => {
                            return Err(e);
                        },
                    };
                    match self.assignment_operation(host, operand, va, copy_str(v2.as_str())) {
                        Ok(x) => x,
                        Err(e) => {
                            return Err(e);
                        },
                    }
                } else {
                    value
                };
                let _ = tgt.setd(ix.value, nv);
            }
            match put_at(tokens, imt, tgt.clone()) {
                Ok(_) => {},
                Err(e) => {
                    return Err(e);
                },
            }
            if is_ref {
                return self.assign(name.as_str(), tgt);
            }
            Ok(())
        } else {
            let nv = if compound {
                let cur = self.lookup(varname.as_str());
                match self.assignment_operation(host, operand, cur.value, copy_str(v2.as_str())) {
                    Ok(x) => x,
                    Err(e) => {
                        return Err(e);
                    },
                }
            } else {
                value
            };
            self.assign(varname.as_str(), nv)
        }
    }

    /// Defines the built-in function that `doc` describes: its name on the first line,
    /// then its tokens as pairs of a kind name and a text, separated by spaces. Empty
    /// lines are skipped; a description of fewer than two lines defines nothing. The
    /// name is written and then protected (see `builtin_def`).
    #[verifier::loop_isolation(false)]
    #[verifier::rlimit(30)]
    fn __builtin(&mut self, doc: &str) -> (r: Result<(), String>)
        requires
            old(self).inv(),
        ensures
            final(self).inv(),
            final(self).memory_view().depth() == old(self).memory_view().depth(),
            keeps_protected(old(self).memory_view(), final(self).memory_view()),
            Parser::keeps_program_and_output(*old(self), *final(self)),
            final(self).module_count() == old(self).module_count(),
            r is Ok <==> builtin_def(doc@) is Some && (builtin_def(doc@).unwrap() is Some
                ==> assignable(old(self).memory_view(), builtin_def(doc@).unwrap().unwrap().0)),
            r is Ok ==> final(self).memory_view() == match builtin_def(doc@).unwrap() {
                None => old(self).memory_view(),
                Some(d) => defined(old(self).memory_view(), d.0, d.1),
            },
            r is Err ==> final(self).memory_view() == old(self).memory_view(),
    {
        if doc.is_empty() {
            return Ok(());
        }
        let all = split_char(doc, '\n');
        let ghost pieces = texts(all@);
        let mut lines: Vec<String> = Vec::new();
        let mut k: usize = 0;
        while k < all.len()
            invariant
                k <= all.len(),
                pieces == texts(all@),
                texts(lines@) == filled_lines(pieces.take(k as int)),
            decreases all.len() - k,
        {
            proof {
                assert(pieces.take(k + 1).drop_last() =~= pieces.take(k as int));
                assert(pieces.take(k + 1).last() == all@[k as int]@);
            }
            if !all[k].as_str().is_empty() {
                let c = copy_str(all[k].as_str());
                proof {
                    assert(all@[k as int]@.len() > 0);
                }
                lines.push(c);
                proof {
                    assert(texts(lines@) =~= filled_lines(pieces.take(k as int)).push(c@));
                }
            } else {
                proof {
                    assert(all@[k as int]@.len() == 0);
                }
            }
            k += 1;
        }
        proof {
            assert(pieces.take(all@.len() as int) =~= pieces);
        }
        let ghost fl = filled_lines(split_view(doc@, '\n'));
        if lines.len() < 2 {
            proof {
                assert(fl.len() < 2);
            }
            return Ok(());
        }
        let name = copy_str(lines[0].as_str());
        let mut bi_tok = Token::news(crate::statics::FUN, name.as_str(), crate::statics::LIST_TOKEN);
        let ghost head = bi_tok.view();
        let tok_strs = split_char(lines[1].as_str(), ' ');
        let ghost words = split_view(fl[1], ' ');
        let l = tok_strs.len();
        proof {
            assert(lines@[0]@ == fl[0]);
            assert(lines@[1]@ == fl[1]);
            assert(texts(tok_strs@) == words);
            assert(head == new_view(crate::statics::FUN, fl[0], crate::statics::LIST_TOKEN, 0, 0));
        }
        let mut i: usize = 0;
        while i < l
            invariant
                l == tok_strs.len(),
                words == texts(tok_strs@),
                l == words.len(),
                i <= l,
                i % 2 == 0,
                bi_tok.tt == crate::statics::LIST_TOKEN,
                containers_present(bi_tok),
                bi_tok.length == i / 2,
                bi_tok.view() == crate::preprocess::with_pushed(head, Seq::new((i / 2) as nat, |j: int|
                    new_view(kind_named(words[2 * j]).unwrap(), words[2 * j + 1], BASE_TOKEN, 0, 0))),
                forall|x: int| 0 <= x < i && x % 2 == 0 ==> #[trigger] kind_named(words[x]) is Some,
            decreases l - i,
        {
            let id = match token_id(tok_strs[i].as_str()) {
                Some(id) => id,
                None => {
                    proof {
                        assert(tok_strs@[i as int]@ == words[i as int]);
                        assert(builtin_body(words) is None);
                    }
                    return Err("unknown token kind".to_owned());
                },
            };
            if i + 1 >= l {
                proof {
                    assert(words.len() % 2 != 0);
                }
                return Err("index out of bounds".to_owned());
            }
            let ghost before = bi_tok.view();
            let nt = Token::newsb(id, tok_strs[i + 1].as_str());
            proof {
                assert(tok_strs@[i as int]@ == words[i as int]);
                assert(tok_strs@[i + 1]@ == words[i + 1]);
                assert(nt.view() == new_view(kind_named(words[i as int]).unwrap(), words[i + 1], BASE_TOKEN, 0, 0));
            }
            let _ = bi_tok.push(nt);
            proof {
                let f = |j: int| new_view(kind_named(words[2 * j]).unwrap(), words[2 * j + 1], BASE_TOKEN, 0, 0);
                assert(Seq::new((i / 2) as nat, f).push(nt.view()) =~= Seq::new(((i + 2) / 2) as nat, f));
                assert(bi_tok.view() =~= crate::preprocess::with_pushed(head, Seq::new(((i + 2) / 2) as nat, f)));
            }
            i += 2;
        }
        proof {
            assert(builtin_body(words) is Some);
            assert(bi_tok.view() == builtin_token(fl[0], builtin_body(words).unwrap()));
            assert(builtin_def(doc@) == Some(Some((fl[0], bi_tok.view()))));
        }
        let ghost before = self.memory_view();
        let ghost tv = bi_tok.view();
        match self.assign(name.as_str(), bi_tok) {
            Ok(_) => {},
            Err(e) => {
                return Err(e);
            },
        }
        self.memory.set_protection(name.as_str(), 1u8);
        proof {
            lemma_write_protect_keeps(before, name@, tv);
        }
        Ok(())
    }

    /// Defines, in turn, the built-in functions that `contents` describes, descriptions
    /// separated by three single quotes (see `builtin_def`); stops at the first that
    /// fails.
    #[verifier::loop_isolation(false)]
    pub fn define_builtins(&mut self, contents: &str) -> (r: Result<(), String>)
        requires
            old(self).inv(),
        ensures
            final(self).inv(),
            final(self).memory_view().depth() == old(self).memory_view().depth(),
            keeps_protected(old(self).memory_view(), final(self).memory_view()),
            Parser::keeps_program_and_output(*old(self), *final(self)),
            final(self).module_count() == old(self).module_count(),
            r is Ok <==> builtins_defined(old(self).memory_view(), split_from(contents@, "'''"@, 0, Seq::empty())) is Some,
            r is Ok ==> final(self).memory_view()
                == builtins_defined(old(self).memory_view(), split_from(contents@, "'''"@, 0, Seq::empty())).unwrap(),
    {
        let docs = split_text(contents, "'''");
        let ghost all = texts(docs@);
        let ghost d0 = self.memory_view().depth();
        let ghost m0 = self.memory_view();
        let ghost s0 = *self;
        let mut k: usize = 0;
        proof {
            assert(all.take(0) =~= Seq::<Seq<char>>::empty());
        }
        while k < docs.len()
            invariant
                k <= docs.len(),
                all == texts(docs@),
                self.inv(),
                self.memory_view().depth() == d0,
                keeps_protected(m0, self.memory_view()),
                Parser::keeps_program_and_output(s0, *self),
                self.module_count() == s0.module_count(),
                builtins_defined(m0, all.take(k as int)) == Some(self.memory_view()),
            decreases docs.len() - k,
        {
            let ghost mk = self.memory_view();
            proof {
                assert(all.take(k + 1).drop_last() =~= all.take(k as int));
                assert(all.take(k + 1).last() == docs@[k as int]@);
            }
            let res = self.__builtin(docs[k].as_str());
            proof {
                lemma_keeps_protected_trans(m0, mk, self.memory_view());
            }
            match res {
                Ok(_) => {},
                Err(e) => {
                    proof {
                        lemma_builtins_stop(m0, all, k + 1);
                    }
                    return Err(e);
                },
            }
            k += 1;
        }
        proof {
            assert(all.take(docs@.len() as int) =~= all);
        }
        Ok(())
    }

    /// Defines the built-in functions described in the prelude file (see
    /// `define_builtins`); nothing when the file cannot be read.
    fn __prelude<H: Host>(&mut self, host: &mut H) -> (r: Result<(), String>)
        requires
            old(self).inv(),
        ensures
            final(self).inv(),
            final(self).memory_view().depth() == old(self).memory_view().depth(),
            keeps_protected(old(self).memory_view(), final(self).memory_view()),
            Parser::keeps_program_and_output(*old(self), *final(self)),
    {
        let path = crate::text::joined(drop_chars(crate::statics::FILE_EXT, 1).as_str(), ".prelude");
        let contents = match host.read_file(path.as_str()) {
            Some(c) => c,
            None => {
                return Ok(());
            },
        };
        self.define_builtins(contents.as_str())
    }

    /// Prepares the interpreter: binds the protected object `System`, whose fields are
    /// the color codes `lime`, `red`, `blue`, `cyan`, `yellow`, `violet` and `default`,
    /// then defines the built-in functions of the prelude file that the host reads (see
    /// `define_builtins`).
    pub fn __init<H: Host>(&mut self, host: &mut H) -> (r: Result<(), String>)
        requires
            old(self).inv(),
        ensures
            final(self).inv(),
            final(self).memory_view().depth() == old(self).memory_view().depth(),
            keeps_protected(old(self).memory_view(), final(self).memory_view()),
            final(self).program() == old(self).program(),
            final(self).output() == old(self).output(),
            final(self).printing() == old(self).printing(),
            r is Ok ==> final(self).memory_view().protection_of("System"@) == 1,
            r is Ok && system_free(old(self).memory_view()) ==> final(self).memory_view().lookup("System"@) == system_view(),
    {
        let mut systok = Token::news(crate::statics::OBJ, "SYS", crate::statics::DICT_TOKEN);
        let _ = systok.setd(copy_str("lime"), Token::news(LIT, "\"\\x1b[38;2;0;255;0m\"", BASE_TOKEN));
        let _ = systok.setd(copy_str("red"), Token::news(LIT, "\"\\x1b[38;2;255;0;0m\"", BASE_TOKEN));
        let _ = systok.setd(copy_str("blue"), Token::news(LIT, "\"\\x1b[38;2;0;0;255m\"", BASE_TOKEN));
        let _ = systok.setd(copy_str("cyan"), Token::news(LIT, "\"\\x1b[38;2;0;255;255m\"", BASE_TOKEN));
        let _ = systok.setd(copy_str("yellow"), Token::news(LIT, "\"\\x1b[38;2;255;255;0m\"", BASE_TOKEN));
        let _ = systok.setd(copy_str("violet"), Token::news(LIT, "\"\\x1b[38;2;255;0;255m\"", BASE_TOKEN));
        let _ = systok.setd(copy_str("default"), Token::news(LIT, "\"\\x1b[39m\"", BASE_TOKEN));
        let ghost before = self.memory_view();
        let ghost sv = systok.view();
        match self.assign("System", systok) {
            Ok(_) => {},
            Err(e) => {
                return Err(e);
            },
        }
        self.memory.set_protection("System", 1u8);
        let ghost mid = self.memory_view();
        proof {
            lemma_write_protect_keeps(before, "System"@, sv);
            if system_free(before) {
                crate::laws::law_scopes_fresh_protected_read(before, "System"@, sv);
            }
            assert(mid.protection_of("System"@) == 1);
        }
        let res = self.__prelude(host);
        proof {
            lemma_keeps_protected_trans(before, mid, self.memory_view());
        }
        res
    }

    /// Runs the program in a new scope of the interpreter's memory, which stays open
    /// afterwards. Gives 0; fails where the program does (a halt, a value of the wrong
    /// kind, a malformed statement...). A program of print statements, assignments,
    /// memory keywords, meta lines, `if`/`else` blocks, loops, function definitions and
    /// calls, `return`, `break` and `continue` (see `resume`) runs to its end or to the statement that ends it, prints
    /// what `run_block` says and leaves the memory and the print settings it says.
    pub fn run<H: Host>(&mut self, host: &mut H) -> (r: Result<u8, String>)
        requires
            old(self).inv(),
        ensures
            final(self).inv(),
            r matches Ok(n) ==> n == 0,
            r is Ok ==> final(self).memory_view().depth() == old(self).memory_view().depth() + 1,
            old(self).memory_view().depth() < usize::MAX - 1
                && run_block(old(self).program(), old(self).memory_view().with_new_scope(), old(self).printing(), (u64::MAX - 1) as nat) is Some
                ==> ({
                    let res = run_block(old(self).program(), old(self).memory_view().with_new_scope(), old(self).printing(), (u64::MAX - 1) as nat).unwrap();
                    r == Ok::<u8, String>(0) && final(self).output() == old(self).output() + res.0
                        && final(self).memory_view() == res.1 && final(self).printing() == res.2
                }),
    {
        self.run_with(host, u64::MAX)
    }
}

} // verus!
