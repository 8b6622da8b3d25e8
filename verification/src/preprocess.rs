use vstd::prelude::*;
use crate::statics::{Token, TokenView, data_type_of, DICT_TOKEN, LIST_TOKEN, BASE_TOKEN, SEP, PAR, GRP, KEY, DOT, FUN, IDX, CTL, OBJ, LST, DCT, NLN, views, lemma_views};
use crate::text::{str_eq, copy_str, starts_with_char};
use crate::statics::{TokenDict, containers_present, list_of};

verus! {

/// Whether `t` has identifier `id` and text `v`.
pub open spec fn is_tok(t: TokenView, id: u8, v: Seq<char>) -> bool {
    t.id == id && t.value == v
}

/// The view of a token made by `Token::new(id, value, tt)` and placed at `line`, `chara`.
pub open spec fn new_view(id: u8, value: Seq<char>, tt: u8, line: usize, chara: usize) -> TokenView {
    TokenView {
        id: id,
        cid: id,
        value: data_type_of(id, value).1,
        dict: if tt == DICT_TOKEN { Some(Map::empty()) } else { None },
        list: if tt == LIST_TOKEN { Some(Seq::empty()) } else { None },
        length: 0,
        data_type: data_type_of(id, value).0,
        line: line,
        chara: chara,
        tt: tt,
    }
}

/// The separator `*` that closes a header.
pub open spec fn star_view() -> TokenView {
    new_view(SEP, "*"@, BASE_TOKEN, 0, 0)
}

/// The separator `..` of a range.
pub open spec fn range_view() -> TokenView {
    new_view(SEP, ".."@, BASE_TOKEN, 0, 0)
}

/// A list token with `items` pushed (each counted in its length).
pub open spec fn with_pushed(f: TokenView, items: Seq<TokenView>) -> TokenView {
    TokenView { length: (f.length + items.len()) as usize, list: Some(f.list.unwrap() + items), ..f }
}

/// A list token with `items` appended to its list (its length left as it was).
pub open spec fn with_extended(f: TokenView, items: Seq<TokenView>) -> TokenView {
    TokenView { list: Some(f.list.unwrap() + items), ..f }
}

/// The tokens of `s` up to the first `)` parenthesis, and those after it.
pub open spec fn until_paren_close(s: Seq<TokenView>) -> Option<(Seq<TokenView>, Seq<TokenView>)>
    decreases s.len(),
{
    if s.len() == 0 {
        None
    } else if is_tok(s[0], PAR, ")"@) {
        Some((Seq::empty(), s.skip(1)))
    } else {
        match until_paren_close(s.skip(1)) {
            Some((a, b)) => Some((seq![s[0]] + a, b)),
            None => None,
        }
    }
}

/// The tokens of `s` up to the first `{` group, and those after it.
pub open spec fn until_brace_open(s: Seq<TokenView>) -> Option<(Seq<TokenView>, Seq<TokenView>)>
    decreases s.len(),
{
    if s.len() == 0 {
        None
    } else if is_tok(s[0], GRP, "{"@) {
        Some((Seq::empty(), s.skip(1)))
    } else {
        match until_brace_open(s.skip(1)) {
            Some((a, b)) => Some((seq![s[0]] + a, b)),
            None => None,
        }
    }
}

/// The body of a bracketed block read from `s` at nesting `depth`: everything up to the
/// bracket that closes the outermost level, without the first opening bracket (when the
/// scan starts outside the block) and without that closing bracket; and what follows it.
/// `None` when the block is not closed or a closing bracket comes first.
pub open spec fn block_scan(s: Seq<TokenView>, open: Seq<char>, close: Seq<char>, depth: nat) -> Option<(Seq<TokenView>, Seq<TokenView>)>
    decreases s.len(),
{
    if s.len() == 0 {
        None
    } else if is_tok(s[0], GRP, close) {
        if depth == 0 {
            None
        } else if depth == 1 {
            Some((Seq::empty(), s.skip(1)))
        } else {
            match block_scan(s.skip(1), open, close, (depth - 1) as nat) {
                Some((a, b)) => Some((seq![s[0]] + a, b)),
                None => None,
            }
        }
    } else if is_tok(s[0], GRP, open) {
        if depth == 0 {
            block_scan(s.skip(1), open, close, 1)
        } else {
            match block_scan(s.skip(1), open, close, depth + 1) {
                Some((a, b)) => Some((seq![s[0]] + a, b)),
                None => None,
            }
        }
    } else {
        match block_scan(s.skip(1), open, close, depth) {
            Some((a, b)) => Some((seq![s[0]] + a, b)),
            None => None,
        }
    }
}

/// The header of a `for` loop read from `s`: its tokens up to the first `{` group, with
/// `in` written as the separator `*`, two dots as the separator `..`, and the separator
/// `*` closing it; and what follows the `{`.
pub open spec fn for_header(s: Seq<TokenView>) -> Option<(Seq<TokenView>, Seq<TokenView>)>
    decreases s.len(),
{
    if s.len() == 0 {
        None
    } else if is_tok(s[0], GRP, "{"@) {
        Some((seq![star_view()], s.skip(1)))
    } else if is_tok(s[0], KEY, "in"@) {
        match for_header(s.skip(1)) {
            Some((a, b)) => Some((seq![star_view()] + a, b)),
            None => None,
        }
    } else if s[0].id == DOT {
        if s.len() < 2 {
            None
        } else if s[1].id == DOT {
            match for_header(s.skip(2)) {
                Some((a, b)) => Some((seq![range_view()] + a, b)),
                None => None,
            }
        } else {
            match for_header(s.skip(1)) {
                Some((a, b)) => Some((seq![s[0]] + a, b)),
                None => None,
            }
        }
    } else {
        match for_header(s.skip(1)) {
            Some((a, b)) => Some((seq![s[0]] + a, b)),
            None => None,
        }
    }
}

/// The tokens of `s` up to the first one whose text is `}`, and those after it.
pub open spec fn until_value_close(s: Seq<TokenView>) -> Option<(Seq<TokenView>, Seq<TokenView>)>
    decreases s.len(),
{
    if s.len() == 0 {
        None
    } else if s[0].value == "}"@ {
        Some((Seq::empty(), s.skip(1)))
    } else {
        match until_value_close(s.skip(1)) {
            Some((a, b)) => Some((seq![s[0]] + a, b)),
            None => None,
        }
    }
}

/// The bindings of a dictionary literal read from `lst` from position `c` on: each `:`
/// or `,` separator binds the text of the token before it to the token after it.
/// `None` when a separator stands first or last.
pub open spec fn dict_fill(lst: Seq<TokenView>, c: int, d: Map<Seq<char>, TokenView>) -> Option<Map<Seq<char>, TokenView>>
    decreases lst.len() - c,
{
    if c < 0 || c >= lst.len() {
        Some(d)
    } else if lst[c].id == SEP {
        if c == 0 || c + 1 >= lst.len() {
            None
        } else {
            dict_fill(lst, c + 2, d.insert(lst[c - 1].value, lst[c + 1]))
        }
    } else {
        dict_fill(lst, c + 1, d)
    }
}

/// The tokens of a list literal that are kept: all but separators.
pub open spec fn non_separators(s: Seq<TokenView>) -> Seq<TokenView>
    decreases s.len(),
{
    if s.len() == 0 {
        s
    } else if s.last().id == SEP {
        non_separators(s.drop_last())
    } else {
        non_separators(s.drop_last()).push(s.last())
    }
}

/// The view of a token with its place set.
pub open spec fn placed(t: TokenView, line: usize, chara: usize) -> TokenView {
    TokenView { line: line, chara: chara, ..t }
}

/// The tokens of an inheritance list read from `s`: up to (not including) the first `{`;
/// a separator is dropped and the token after it is taken, whatever it is. `None` when
/// the list runs out.
pub open spec fn inheritance_scan(s: Seq<TokenView>) -> Option<(Seq<TokenView>, Seq<TokenView>)>
    decreases s.len(),
{
    if s.len() == 0 {
        None
    } else if is_tok(s[0], GRP, "{"@) {
        Some((Seq::empty(), s))
    } else if s[0].id == SEP {
        if s.len() < 2 {
            None
        } else {
            match inheritance_scan(s.skip(2)) {
                Some((a, b)) => Some((seq![s[1]] + a, b)),
                None => None,
            }
        }
    } else {
        match inheritance_scan(s.skip(1)) {
            Some((a, b)) => Some((seq![s[0]] + a, b)),
            None => None,
        }
    }
}

/// The body of a class read from `s` at nesting `depth`: up to (not including) the `}`
/// that closes it, or to the end; the first `{` is dropped. `None` when a `}` comes
/// before any `{`.
pub open spec fn class_body_scan(s: Seq<TokenView>, depth: nat) -> Option<(Seq<TokenView>, Seq<TokenView>)>
    decreases s.len(),
{
    if s.len() == 0 {
        Some((Seq::empty(), Seq::empty()))
    } else if is_tok(s[0], GRP, "{"@) {
        if depth == 0 {
            class_body_scan(s.skip(1), 1)
        } else {
            match class_body_scan(s.skip(1), depth + 1) {
                Some((a, b)) => Some((seq![s[0]] + a, b)),
                None => None,
            }
        }
    } else if is_tok(s[0], GRP, "}"@) {
        if depth == 0 {
            None
        } else if depth == 1 {
            Some((Seq::empty(), s))
        } else {
            match class_body_scan(s.skip(1), (depth - 1) as nat) {
                Some((a, b)) => Some((seq![s[0]] + a, b)),
                None => None,
            }
        }
    } else {
        match class_body_scan(s.skip(1), depth) {
            Some((a, b)) => Some((seq![s[0]] + a, b)),
            None => None,
        }
    }
}

/// The tokens of a property definition read from `s`: up to (not including) the first
/// newline token. `None` when there is none.
pub open spec fn until_newline(s: Seq<TokenView>) -> Option<(Seq<TokenView>, Seq<TokenView>)>
    decreases s.len(),
{
    if s.len() == 0 {
        None
    } else if s[0].id == NLN {
        Some((Seq::empty(), s))
    } else {
        match until_newline(s.skip(1)) {
            Some((a, b)) => Some((seq![s[0]] + a, b)),
            None => None,
        }
    }
}

/// `d` with every function token of `lst` bound to its name, in order.
pub open spec fn bind_functions(lst: Seq<TokenView>, d: Map<Seq<char>, TokenView>) -> Map<Seq<char>, TokenView>
    decreases lst.len(),
{
    if lst.len() == 0 {
        d
    } else if lst[0].id == FUN {
        bind_functions(lst.skip(1), d.insert(lst[0].value, lst[0]))
    } else {
        bind_functions(lst.skip(1), d)
    }
}

/// The parts of a function definition that starts at the front of `s` (`func name (`
/// or `method name (`): the function token with its parameters and the separator `*`,
/// its raw body, and what follows the body.
pub open spec fn fun_parts(s: Seq<TokenView>) -> Option<(TokenView, Seq<TokenView>, Seq<TokenView>)> {
    if s.len() < 3 {
        None
    } else {
        let f0 = new_view(FUN, s[1].value, LIST_TOKEN, s[0].line, s[0].chara);
        match until_paren_close(s.skip(3)) {
            None => None,
            Some((params, r1)) => match block_scan(r1, "{"@, "}"@, 0) {
                None => None,
                Some((body, r2)) => Some((with_pushed(f0, params + seq![star_view()]), body, r2)),
            },
        }
    }
}

/// The parts of a control block that starts at the front of `s` (its keyword first):
/// the block token named `name` with its header, its raw body, and what follows.
/// A `for` header reads `in` and `..` (see `for_header`); `while` and `if` headers run
/// to the `{`; an `else` block has no header.
pub open spec fn block_parts(s: Seq<TokenView>, name: Seq<char>) -> Option<(TokenView, Seq<TokenView>, Seq<TokenView>)> {
    if s.len() == 0 {
        None
    } else {
        let f0 = new_view(CTL, name, LIST_TOKEN, s[0].line, s[0].chara);
        let rest = s.skip(1);
        if name == "elseblock"@ {
            match block_scan(rest, "{"@, "}"@, 0) {
                None => None,
                Some((body, r2)) => Some((f0, body, r2)),
            }
        } else {
            let header = if name == "forloop"@ {
                for_header(rest)
            } else {
                match until_brace_open(rest) {
                    Some((a, b)) => Some((a + seq![star_view()], b)),
                    None => None,
                }
            };
            match header {
                None => None,
                Some((h, r1)) => match block_scan(r1, "{"@, "}"@, 1) {
                    None => None,
                    Some((body, r2)) => Some((with_pushed(f0, h), body, r2)),
                },
            }
        }
    }
}

/// The separator-free tokens of the list literal whose tokens preprocess to `pl`.
pub open spec fn list_literal(t: TokenView, pl: Seq<TokenView>) -> TokenView {
    with_pushed(new_view(LST, "LST"@, LIST_TOKEN, t.line, t.chara), non_separators(pl))
}

/// How preprocessing goes on from position `i` of `toks`, `fv` holding what it has
/// produced so far: a `${` group becomes a dictionary token, a `$[` group a list token,
/// a `[` group an index token, `func` a function token, `for`, `while`, `if` and `else`
/// control tokens, `class` an object token (after the keyword); other groups are dropped
/// and everything else is kept. `None` where the source is malformed (an unclosed group,
/// a closing bracket with nothing open, a loop or `else` at the very start...).
pub open spec fn pp_from(toks: Seq<TokenView>, i: int, fv: Seq<TokenView>) -> Option<Seq<TokenView>>
    decreases toks.len(), toks.len() - i,
{
    if i < 0 || i > toks.len() {
        None
    } else if i == toks.len() {
        Some(fv)
    } else {
        let t = toks[i];
        let s = toks.skip(i);
        if t.id == GRP {
            if t.value.len() == 0 {
                None
            } else if t.value[0] == '$' {
                if t.value == "${"@ {
                    match until_value_close(s.skip(1)) {
                        None => None,
                        Some((lst, rest)) => if rest.len() == 0 {
                            None
                        } else {
                            match dict_fill(lst, 0, Map::empty()) {
                                None => None,
                                Some(d) => {
                                    let f = TokenView { dict: Some(d), ..new_view(DCT, "DCT"@, DICT_TOKEN, rest[0].line, rest[0].chara) };
                                    let toks2 = toks.take(i) + rest;
                                    if toks2.len() < toks.len() { pp_from(toks2, i, fv.push(f)) } else { None }
                                },
                            }
                        },
                    }
                } else if t.value == "$["@ {
                    match block_scan(s.skip(1), "$["@, "]"@, 1) {
                        None => None,
                        Some((lst, rest)) => if lst.len() < toks.len() {
                            match pp_from(lst, 0, Seq::empty()) {
                                None => None,
                                Some(pl) => {
                                    let toks2 = toks.take(i) + rest;
                                    if toks2.len() < toks.len() { pp_from(toks2, i, fv.push(list_literal(t, pl))) } else { None }
                                },
                            }
                        } else {
                            None
                        },
                    }
                } else {
                    pp_from(toks, i + 1, fv.push(t))
                }
            } else if t.value == "["@ {
                match block_scan(s, "["@, "]"@, 0) {
                    None => None,
                    Some((body, rest)) => if body.len() < toks.len() {
                        match pp_from(body, 0, Seq::empty()) {
                            None => None,
                            Some(pb) => {
                                let f = TokenView { list: Some(pb), ..new_view(IDX, "IDX"@, LIST_TOKEN, t.line, t.chara) };
                                let toks2 = toks.take(i) + rest;
                                if toks2.len() < toks.len() { pp_from(toks2, i, fv.push(f)) } else { None }
                            },
                        }
                    } else {
                        None
                    },
                }
            } else {
                pp_from(toks, i + 1, fv)
            }
        } else if t.id == KEY && (t.value == "func"@ || t.value == "for"@ || t.value == "while"@ || t.value == "if"@ || t.value == "else"@) {
            let parts = if t.value == "func"@ {
                fun_parts(s)
            } else if t.value == "for"@ {
                block_parts(s, "forloop"@)
            } else if t.value == "while"@ {
                block_parts(s, "whileloop"@)
            } else if t.value == "if"@ {
                block_parts(s, "ifblock"@)
            } else {
                block_parts(s, "elseblock"@)
            };
            let i2 = if t.value == "func"@ || (t.value == "if"@ && i == 0) { i } else { i - 1 };
            match parts {
                None => None,
                Some((fh, body, rest)) => if body.len() < toks.len() {
                    match pp_from(body, 0, Seq::empty()) {
                        None => None,
                        Some(pb) => {
                            let toks2 = toks.take(i) + rest;
                            if toks2.len() < toks.len() { pp_from(toks2, i2, fv.push(with_extended(fh, pb))) } else { None }
                        },
                    }
                } else {
                    None
                },
            }
        } else if t.id == KEY && t.value == "class"@ {
            let i1 = i + 1;
            if i1 >= toks.len() {
                None
            } else {
                let name = toks[i1];
                let toks1 = toks.remove(i1);
                if i1 >= toks1.len() {
                    None
                } else {
                    let inh = if is_tok(toks1[i1], KEY, "inheriting"@) {
                        match inheritance_scan(toks1.skip(i1 + 1)) {
                            None => None,
                            Some((a, b)) => Some((a, toks1.take(i1) + b)),
                        }
                    } else {
                        Some((Seq::empty(), toks1))
                    };
                    match inh {
                        None => None,
                        Some((inh_items, toks2)) => match class_body_scan(toks2.skip(i1), 0) {
                            None => None,
                            Some((lst, rest)) => {
                                let toks3 = toks2.take(i1) + rest;
                                if lst.len() < toks.len() && toks3.len() < toks.len() {
                                    match class_members(lst, 0, lst.len() as int, new_view(LST, "props"@, LIST_TOKEN, 0, 0)) {
                                        None => None,
                                        Some((lst2, props)) => {
                                            let inheritance = with_pushed(new_view(LST, "\"class inheritance"@, LIST_TOKEN, 0, 0), inh_items);
                                            let d = Map::empty().insert("\"class inheritance"@, inheritance).insert("\"props"@, props);
                                            let f = TokenView { dict: Some(bind_functions(lst2, d)), ..new_view(OBJ, name.value, DICT_TOKEN, 0, 0) };
                                            pp_from(toks3, i1, fv.push(t).push(f))
                                        },
                                    }
                                } else {
                                    None
                                }
                            },
                        },
                    }
                }
            }
        } else {
            pp_from(toks, i + 1, fv.push(t))
        }
    }
}

/// How the members of a class body `lst` are read from position `ind` on (`l` the count
/// the reading stops at): a `method` becomes a function token in place, a `property`
/// (keyword, name, one more token, then everything up to a newline) is taken out and
/// added to `props`. Gives what is left of the body and the properties.
pub open spec fn class_members(lst: Seq<TokenView>, ind: int, l: int, props: TokenView) -> Option<(Seq<TokenView>, TokenView)>
    decreases lst.len(), l - ind,
{
    if ind < 0 {
        None
    } else if ind >= l {
        Some((lst, props))
    } else if ind >= lst.len() {
        None
    } else {
        let step: Option<(Seq<TokenView>, int)> = if is_tok(lst[ind], KEY, "method"@) {
            match fun_parts(lst.skip(ind)) {
                None => None,
                Some((fh, body, rest)) => if body.len() < lst.len() {
                    match pp_from(body, 0, Seq::empty()) {
                        None => None,
                        Some(pb) => {
                            let lst2 = lst.take(ind) + rest;
                            if lst2.len() + 1 < lst.len() {
                                Some((lst2.insert(ind, with_extended(fh, pb)), lst2.len() as int))
                            } else {
                                None
                            }
                        },
                    }
                } else {
                    None
                },
            }
        } else {
            Some((lst, l))
        };
        match step {
            None => None,
            Some((lst_a, l_a)) => if ind >= lst_a.len() {
                None
            } else if is_tok(lst_a[ind], KEY, "property"@) {
                match property_step(lst_a, ind) {
                    None => None,
                    Some((lst_b, ls)) => if lst_b.len() < lst.len() {
                        class_members(lst_b, ind + 1, lst_b.len() as int, with_pushed(props, seq![ls]))
                    } else {
                        None
                    },
                }
            } else if lst_a.len() < lst.len() {
                class_members(lst_a, ind + 1, l_a, props)
            } else if lst_a == lst && l_a == l {
                class_members(lst, ind + 1, l, props)
            } else {
                None
            },
        }
    }
}

/// A property definition read from `lst` at `ind` (the keyword, the name, one more
/// token, then everything up to a newline): what is left of `lst`, and the property
/// as a list token named after it.
pub open spec fn property_step(lst: Seq<TokenView>, ind: int) -> Option<(Seq<TokenView>, TokenView)> {
    let s = lst.remove(ind);
    if ind + 2 > s.len() {
        None
    } else {
        let ls0 = new_view(LST, s[ind].value, LIST_TOKEN, 0, 0);
        let s2 = s.take(ind) + s.skip(ind + 2);
        match until_newline(s2.skip(ind)) {
            None => None,
            Some((items, rest)) => Some((s2.take(ind) + rest, with_pushed(ls0, items))),
        }
    }
}

/// What preprocessing makes of `toks`.
pub open spec fn preprocessed(toks: Seq<TokenView>) -> Option<Seq<TokenView>> {
    pp_from(toks, 0, Seq::empty())
}

/// `r` with `a` put in front of its first part; `None` when `r` is.
pub open spec fn prepend(a: Seq<TokenView>, r: Option<(Seq<TokenView>, Seq<TokenView>)>) -> Option<(Seq<TokenView>, Seq<TokenView>)> {
    match r {
        Some((x, y)) => Some((a + x, y)),
        None => None,
    }
}

/// Whether an exec split (`v`, resuming at `n` in `s`) matches the spec split `r`.
pub open spec fn split_matches(s: Seq<Token>, k: int, r: Option<(Seq<TokenView>, Seq<TokenView>)>, e: Option<(Vec<Token>, usize)>) -> bool {
    match r {
        None => e is None,
        Some((a, b)) => match e {
            Some((v, n)) => k <= n <= s.len() && views(v@) == a && views(s).skip(n as int) == b,
            None => false,
        },
    }
}

proof fn lemma_skip_step(s: Seq<Token>, j: int)
    requires
        0 <= j < s.len(),
    ensures
        views(s).skip(j).len() > 0,
        views(s).skip(j)[0] == s[j].view(),
        views(s).skip(j).skip(1) == views(s).skip(j + 1),
        views(s).skip(j).skip(2) == views(s).skip(j + 2) || j + 2 > s.len(),
{
    lemma_views(s);
    assert(views(s).skip(j).skip(1) =~= views(s).skip(j + 1));
    if j + 2 <= s.len() {
        assert(views(s).skip(j).skip(2) =~= views(s).skip(j + 2));
    }
}

proof fn lemma_push_view(v: Seq<Token>, t: Token)
    ensures
        views(v.push(t)) == views(v) + seq![t.view()],
        views(v.push(t)) == views(v).push(t.view()),
{
    lemma_views(v.push(t));
    lemma_views(v);
    assert(views(v.push(t)) =~= views(v) + seq![t.view()]);
    assert(views(v.push(t)) =~= views(v).push(t.view()));
}

/// Whether token `t` has identifier `id` and text `v`.
pub fn tok_is(t: &Token, id: u8, v: &str) -> (r: bool)
    ensures
        r == is_tok(t.view(), id, v@),
{
    t.id == id && str_eq(t.value.as_str(), v)
}

/// Splits `s[k..]` at its first `)` parenthesis.
pub fn until_paren_close_exec(s: &Vec<Token>, k: usize) -> (r: Option<(Vec<Token>, usize)>)
    requires
        k <= s.len(),
    ensures
        split_matches(s@, k as int, until_paren_close(views(s@).skip(k as int)), r),
{
    let mut body: Vec<Token> = Vec::new();
    let mut j = k;
    while j < s.len()
        invariant
            k <= j <= s.len(),
            until_paren_close(views(s@).skip(k as int)) == prepend(views(body@), until_paren_close(views(s@).skip(j as int))),
        decreases s.len() - j,
    {
        proof {
            lemma_skip_step(s@, j as int);
        }
        if tok_is(&s[j], PAR, ")") {
            assert(views(s@).skip(j + 1) =~= views(s@).skip(j as int).skip(1));
            assert(views(body@) + Seq::<TokenView>::empty() =~= views(body@));
            return Some((body, j + 1));
        }
        proof {
            lemma_push_view(body@, s@[j as int]);
        }
        let ghost old_body = body@;
        body.push(s[j].clone());
        proof {
            lemma_push_view(old_body, body@.last());
            assert(views(body@) == views(old_body) + seq![s@[j as int].view()]);
            assert(views(old_body) + (seq![s@[j as int].view()]) =~= views(body@));
            match until_paren_close(views(s@).skip(j + 1)) {
                Some((x, y)) => {
                    assert(views(old_body) + (seq![s@[j as int].view()] + x) =~= views(body@) + x);
                },
                None => {},
            }
        }
        j += 1;
    }
    proof {
        lemma_views(s@);
    }
    assert(views(s@).skip(j as int).len() == 0);
    None
}

proof fn lemma_prepend_step(old_body: Seq<Token>, new_body: Seq<Token>, tv: TokenView, r: Option<(Seq<TokenView>, Seq<TokenView>)>)
    requires
        new_body.len() == old_body.len() + 1,
        new_body.drop_last() == old_body,
        new_body.last().view() == tv,
    ensures
        prepend(views(old_body), prepend(seq![tv], r)) == prepend(views(new_body), r),
{
    assert(new_body =~= old_body.push(new_body.last()));
    lemma_push_view(old_body, new_body.last());
    match r {
        Some((x, y)) => {
            assert(views(old_body) + (seq![tv] + x) =~= views(new_body) + x);
        },
        None => {},
    }
}

/// Splits `s[k..]` at its first `{` group.
pub fn until_brace_open_exec(s: &Vec<Token>, k: usize) -> (r: Option<(Vec<Token>, usize)>)
    requires
        k <= s.len(),
    ensures
        split_matches(s@, k as int, until_brace_open(views(s@).skip(k as int)), r),
{
    let mut body: Vec<Token> = Vec::new();
    let mut j = k;
    while j < s.len()
        invariant
            k <= j <= s.len(),
            until_brace_open(views(s@).skip(k as int)) == prepend(views(body@), until_brace_open(views(s@).skip(j as int))),
        decreases s.len() - j,
    {
        proof {
            lemma_skip_step(s@, j as int);
        }
        if tok_is(&s[j], GRP, "{") {
            assert(views(body@) + Seq::<TokenView>::empty() =~= views(body@));
            return Some((body, j + 1));
        }
        let ghost old_body = body@;
        body.push(s[j].clone());
        proof {
            assert(body@.drop_last() =~= old_body);
            lemma_prepend_step(old_body, body@, s@[j as int].view(), until_brace_open(views(s@).skip(j + 1)));
        }
        j += 1;
    }
    proof {
        lemma_views(s@);
    }
    assert(views(s@).skip(j as int).len() == 0);
    None
}

/// Reads a bracketed block from `s[k..]` at nesting `depth` (see `block_scan`).
pub fn block_scan_exec(s: &Vec<Token>, k: usize, open: &str, close: &str, depth: u64) -> (r: Option<(Vec<Token>, usize)>)
    requires
        k <= s.len(),
        open@ != close@,
        depth + s.len() < u64::MAX,
    ensures
        split_matches(s@, k as int, block_scan(views(s@).skip(k as int), open@, close@, depth as nat), r),
{
    let mut body: Vec<Token> = Vec::new();
    let mut j = k;
    let mut d: u64 = depth;
    while j < s.len()
        invariant
            k <= j <= s.len(),
            open@ != close@,
            d <= depth + (j - k),
            depth + s.len() < u64::MAX,
            block_scan(views(s@).skip(k as int), open@, close@, depth as nat)
                == prepend(views(body@), block_scan(views(s@).skip(j as int), open@, close@, d as nat)),
        decreases s.len() - j,
    {
        proof {
            lemma_skip_step(s@, j as int);
        }
        if tok_is(&s[j], GRP, close) {
            if d == 0 {
                return None;
            } else if d == 1 {
                assert(views(body@) + Seq::<TokenView>::empty() =~= views(body@));
                return Some((body, j + 1));
            }
            d -= 1;
        } else if tok_is(&s[j], GRP, open) {
            if d == 0 {
                d = 1;
                j += 1;
                continue;
            }
            d += 1;
        }
        let ghost old_body = body@;
        body.push(s[j].clone());
        proof {
            assert(body@.drop_last() =~= old_body);
            lemma_prepend_step(old_body, body@, s@[j as int].view(), block_scan(views(s@).skip(j + 1), open@, close@, d as nat));
        }
        j += 1;
    }
    proof {
        lemma_views(s@);
    }
    assert(views(s@).skip(j as int).len() == 0);
    None
}

/// The separator token `*`.
fn star_token() -> (r: Token)
    ensures
        r.view() == star_view(),
{
    Token::news(SEP, "*", BASE_TOKEN)
}

/// The separator token `..`.
fn range_token() -> (r: Token)
    ensures
        r.view() == range_view(),
{
    Token::news(SEP, "..", BASE_TOKEN)
}

/// Reads the header of a `for` loop from `s[k..]` (see `for_header`).
pub fn for_header_exec(s: &Vec<Token>, k: usize) -> (r: Option<(Vec<Token>, usize)>)
    requires
        k <= s.len(),
    ensures
        split_matches(s@, k as int, for_header(views(s@).skip(k as int)), r),
{
    let mut body: Vec<Token> = Vec::new();
    let mut j = k;
    while j < s.len()
        invariant
            k <= j <= s.len(),
            for_header(views(s@).skip(k as int)) == prepend(views(body@), for_header(views(s@).skip(j as int))),
        decreases s.len() - j,
    {
        proof {
            lemma_skip_step(s@, j as int);
        }
        if tok_is(&s[j], GRP, "{") {
            let ghost old_body = body@;
            body.push(star_token());
            proof {
                lemma_push_view(old_body, body@.last());
                assert(body@.drop_last() =~= old_body);
                assert(views(old_body) + seq![star_view()] =~= views(body@));
            }
            return Some((body, j + 1));
        }
        if tok_is(&s[j], KEY, "in") {
            let ghost old_body = body@;
            body.push(star_token());
            proof {
                assert(body@.drop_last() =~= old_body);
                lemma_prepend_step(old_body, body@, star_view(), for_header(views(s@).skip(j + 1)));
            }
            j += 1;
            continue;
        }
        if s[j].id == DOT {
            if j + 1 >= s.len() {
                proof {
                    lemma_views(s@);
                }
                return None;
            }
            proof {
                lemma_skip_step(s@, j + 1);
            }
            if s[j + 1].id == DOT {
                let ghost old_body = body@;
                body.push(range_token());
                proof {
                    assert(body@.drop_last() =~= old_body);
                    lemma_prepend_step(old_body, body@, range_view(), for_header(views(s@).skip(j + 2)));
                }
                j += 2;
                continue;
            }
        }
        let ghost old_body = body@;
        body.push(s[j].clone());
        proof {
            assert(body@.drop_last() =~= old_body);
            lemma_prepend_step(old_body, body@, s@[j as int].view(), for_header(views(s@).skip(j + 1)));
        }
        j += 1;
    }
    proof {
        lemma_views(s@);
    }
    assert(views(s@).skip(j as int).len() == 0);
    None
}

proof fn lemma_views_concat(a: Seq<Token>, b: Seq<Token>)
    ensures
        views(a + b) == views(a) + views(b),
{
    lemma_views(a + b);
    lemma_views(a);
    lemma_views(b);
    assert(views(a + b) =~= views(a) + views(b));
}

/// `toks[..i]` followed by `toks[n..]`.
fn splice(toks: &Vec<Token>, i: usize, n: usize) -> (r: Vec<Token>)
    requires
        i <= n <= toks.len(),
    ensures
        views(r@) == views(toks@).take(i as int) + views(toks@).skip(n as int),
        r.len() == toks.len() - (n - i),
{
    let mut r: Vec<Token> = Vec::new();
    let mut k: usize = 0;
    while k < i
        invariant
            k <= i <= n <= toks.len(),
            r.len() == k,
            forall|j: int| 0 <= j < k ==> (#[trigger] r@[j]).view() == toks@[j].view(),
        decreases i - k,
    {
        r.push(toks[k].clone());
        k += 1;
    }
    let mut k = n;
    while k < toks.len()
        invariant
            i <= n <= k <= toks.len(),
            r.len() == i + (k - n),
            forall|j: int| 0 <= j < i ==> (#[trigger] r@[j]).view() == toks@[j].view(),
            forall|j: int| i <= j < r.len() ==> (#[trigger] r@[j]).view() == toks@[j - i + n].view(),
        decreases toks.len() - k,
    {
        r.push(toks[k].clone());
        k += 1;
    }
    proof {
        lemma_views(r@);
        lemma_views(toks@);
        assert(views(r@) =~= views(toks@).take(i as int) + views(toks@).skip(n as int));
    }
    r
}

/// A token made by `Token::news(id, value, tt)`.
fn make_token(id: u8, value: &str, tt: u8) -> (r: Token)
    requires
        tt == BASE_TOKEN || tt == DICT_TOKEN || tt == LIST_TOKEN,
    ensures
        r.view() == new_view(id, value@, tt, 0, 0),
        containers_present(r),
        r.length == 0,
        tt == LIST_TOKEN ==> r.list is Some,
        tt == DICT_TOKEN ==> r.dict is Some,
{
    let r = Token::news(id, value, tt);
    proof {
        if tt == LIST_TOKEN {
            lemma_views(r.list.unwrap()@);
            assert(views(r.list.unwrap()@) =~= Seq::<TokenView>::empty());
        }
    }
    r
}

/// Appends `items` to a list token's list without counting them in its length.
fn extend_list(f: &mut Token, items: Vec<Token>)
    requires
        old(f).list is Some,
        old(f).tt == LIST_TOKEN,
    ensures
        final(f).view() == with_extended(old(f).view(), views(items@)),
        final(f).list is Some,
        final(f).tt == LIST_TOKEN,
        final(f).length == old(f).length,
{
    let mut items = items;
    let ghost iv = items@;
    let ghost ol = f.list.unwrap()@;
    match &mut f.list {
        Some(l) => {
            l.append(&mut items);
        },
        None => {},
    }
    proof {
        lemma_views_concat(ol, iv);
    }
}

/// Pushes `items` onto a list token (each counted in its length).
fn push_list(f: &mut Token, items: Vec<Token>)
    requires
        old(f).list is Some,
        old(f).tt == LIST_TOKEN,
        old(f).length + items.len() <= usize::MAX,
    ensures
        final(f).view() == with_pushed(old(f).view(), views(items@)),
        final(f).list is Some,
        final(f).tt == LIST_TOKEN,
        final(f).length == old(f).length + items.len(),
{
    proof {
        lemma_views(items@);
    }
    let r = f.extend(items);
}

/// Splits `s[k..]` after the first token whose text is `}`.
fn until_value_close_exec(s: &Vec<Token>, k: usize) -> (r: Option<(Vec<Token>, usize)>)
    requires
        k <= s.len(),
    ensures
        split_matches(s@, k as int, until_value_close(views(s@).skip(k as int)), r),
{
    let mut body: Vec<Token> = Vec::new();
    let mut j = k;
    while j < s.len()
        invariant
            k <= j <= s.len(),
            until_value_close(views(s@).skip(k as int)) == prepend(views(body@), until_value_close(views(s@).skip(j as int))),
        decreases s.len() - j,
    {
        proof {
            lemma_skip_step(s@, j as int);
        }
        if str_eq(s[j].value.as_str(), "}") {
            assert(views(body@) + Seq::<TokenView>::empty() =~= views(body@));
            return Some((body, j + 1));
        }
        let ghost old_body = body@;
        body.push(s[j].clone());
        proof {
            assert(body@.drop_last() =~= old_body);
            lemma_prepend_step(old_body, body@, s@[j as int].view(), until_value_close(views(s@).skip(j + 1)));
        }
        j += 1;
    }
    proof {
        lemma_views(s@);
    }
    assert(views(s@).skip(j as int).len() == 0);
    None
}

/// Splits `s[k..]` before the first newline token.
fn until_newline_exec(s: &Vec<Token>, k: usize) -> (r: Option<(Vec<Token>, usize)>)
    requires
        k <= s.len(),
    ensures
        split_matches(s@, k as int, until_newline(views(s@).skip(k as int)), r),
{
    let mut body: Vec<Token> = Vec::new();
    let mut j = k;
    while j < s.len()
        invariant
            k <= j <= s.len(),
            until_newline(views(s@).skip(k as int)) == prepend(views(body@), until_newline(views(s@).skip(j as int))),
        decreases s.len() - j,
    {
        proof {
            lemma_skip_step(s@, j as int);
        }
        if s[j].id == NLN {
            assert(views(body@) + Seq::<TokenView>::empty() =~= views(body@));
            return Some((body, j));
        }
        let ghost old_body = body@;
        body.push(s[j].clone());
        proof {
            assert(body@.drop_last() =~= old_body);
            lemma_prepend_step(old_body, body@, s@[j as int].view(), until_newline(views(s@).skip(j + 1)));
        }
        j += 1;
    }
    proof {
        lemma_views(s@);
    }
    assert(views(s@).skip(j as int).len() == 0);
    None
}

/// Reads an inheritance list from `s[k..]` (see `inheritance_scan`).
fn inheritance_scan_exec(s: &Vec<Token>, k: usize) -> (r: Option<(Vec<Token>, usize)>)
    requires
        k <= s.len(),
    ensures
        split_matches(s@, k as int, inheritance_scan(views(s@).skip(k as int)), r),
{
    let mut body: Vec<Token> = Vec::new();
    let mut j = k;
    while j < s.len()
        invariant
            k <= j <= s.len(),
            inheritance_scan(views(s@).skip(k as int)) == prepend(views(body@), inheritance_scan(views(s@).skip(j as int))),
        decreases s.len() - j,
    {
        proof {
            lemma_skip_step(s@, j as int);
        }
        if tok_is(&s[j], GRP, "{") {
            assert(views(body@) + Seq::<TokenView>::empty() =~= views(body@));
            return Some((body, j));
        }
        if s[j].id == SEP {
            if j + 1 >= s.len() {
                proof {
                    lemma_views(s@);
                }
                return None;
            }
            proof {
                lemma_skip_step(s@, j + 1);
            }
            let ghost old_body = body@;
            body.push(s[j + 1].clone());
            proof {
                assert(body@.drop_last() =~= old_body);
                lemma_prepend_step(old_body, body@, s@[j + 1].view(), inheritance_scan(views(s@).skip(j + 2)));
            }
            j += 2;
            continue;
        }
        let ghost old_body = body@;
        body.push(s[j].clone());
        proof {
            assert(body@.drop_last() =~= old_body);
            lemma_prepend_step(old_body, body@, s@[j as int].view(), inheritance_scan(views(s@).skip(j + 1)));
        }
        j += 1;
    }
    proof {
        lemma_views(s@);
    }
    assert(views(s@).skip(j as int).len() == 0);
    None
}

/// Reads a class body from `s[k..]` (see `class_body_scan`).
fn class_body_scan_exec(s: &Vec<Token>, k: usize) -> (r: Option<(Vec<Token>, usize)>)
    requires
        k <= s.len(),
        s.len() < u64::MAX,
    ensures
        split_matches(s@, k as int, class_body_scan(views(s@).skip(k as int), 0), r),
{
    let mut body: Vec<Token> = Vec::new();
    let mut j = k;
    let mut d: u64 = 0;
    while j < s.len()
        invariant
            k <= j <= s.len(),
            d <= j - k,
            s.len() < u64::MAX,
            class_body_scan(views(s@).skip(k as int), 0) == prepend(views(body@), class_body_scan(views(s@).skip(j as int), d as nat)),
        decreases s.len() - j,
    {
        proof {
            lemma_skip_step(s@, j as int);
        }
        if tok_is(&s[j], GRP, "{") {
            if d == 0 {
                d = 1;
                j += 1;
                continue;
            }
            d += 1;
        } else if tok_is(&s[j], GRP, "}") {
            if d == 0 {
                return None;
            } else if d == 1 {
                assert(views(body@) + Seq::<TokenView>::empty() =~= views(body@));
                return Some((body, j));
            }
            d -= 1;
        }
        let ghost old_body = body@;
        body.push(s[j].clone());
        proof {
            assert(body@.drop_last() =~= old_body);
            lemma_prepend_step(old_body, body@, s@[j as int].view(), class_body_scan(views(s@).skip(j + 1), d as nat));
        }
        j += 1;
    }
    proof {
        lemma_views(s@);
        assert(views(s@).skip(j as int).len() == 0);
        assert(views(body@) + Seq::<TokenView>::empty() =~= views(body@));
        assert(views(s@).skip(s.len() as int) =~= Seq::<TokenView>::empty());
    }
    Some((body, j))
}


proof fn lemma_views_remove(s: Seq<Token>, j: int)
    requires
        0 <= j < s.len(),
    ensures
        views(s.remove(j)) == views(s).remove(j),
{
    lemma_views(s.remove(j));
    lemma_views(s);
    assert(views(s.remove(j)) =~= views(s).remove(j));
}

proof fn lemma_views_insert(s: Seq<Token>, j: int, t: Token)
    requires
        0 <= j <= s.len(),
    ensures
        views(s.insert(j, t)) == views(s).insert(j, t.view()),
{
    lemma_views(s.insert(j, t));
    lemma_views(s);
    assert(views(s.insert(j, t)) =~= views(s).insert(j, t.view()));
}

/// The tokens of `s` that are not separators.
fn non_separators_exec(s: &Vec<Token>) -> (r: Vec<Token>)
    ensures
        views(r@) == non_separators(views(s@)),
        r.len() <= s.len(),
{
    let mut r: Vec<Token> = Vec::new();
    let mut k: usize = 0;
    proof {
        lemma_views(s@);
        assert(views(s@).take(0) =~= Seq::<TokenView>::empty());
    }
    while k < s.len()
        invariant
            k <= s.len(),
            r.len() <= k,
            views(r@) == non_separators(views(s@).take(k as int)),
            views(s@).len() == s.len(),
            forall|j: int| 0 <= j < s.len() ==> #[trigger] views(s@)[j] == s@[j].view(),
        decreases s.len() - k,
    {
        let ghost vs = views(s@);
        assert(vs.take(k + 1).drop_last() =~= vs.take(k as int));
        assert(vs.take(k + 1).last() == s@[k as int].view());
        if s[k].id != SEP {
            let ghost old_r = r@;
            r.push(s[k].clone());
            proof {
                lemma_push_view(old_r, r@.last());
                assert(r@ =~= old_r.push(r@.last()));
            }
        }
        k += 1;
    }
    assert(views(s@).take(s.len() as int) =~= views(s@));
    r
}

/// Fills the dictionary of `f` from the tokens `lst` of a dictionary literal (see `dict_fill`).
fn dict_fill_exec(f: &mut Token, lst: &Vec<Token>) -> (ok: bool)
    requires
        old(f).tt == DICT_TOKEN,
        old(f).dict is Some,
    ensures
        final(f).tt == DICT_TOKEN,
        final(f).dict is Some,
        ok == dict_fill(views(lst@), 0, old(f).view().dict.unwrap()) is Some,
        ok ==> final(f).view() == (TokenView { dict: dict_fill(views(lst@), 0, old(f).view().dict.unwrap()), ..old(f).view() }),
{
    let ghost v0 = f.view();
    assert(v0 == old(f).view());
    let ghost vs = views(lst@);
    proof {
        lemma_views(lst@);
    }
    let mut c: usize = 0;
    while c < lst.len()
        invariant
            vs == views(lst@),
            vs.len() == lst.len(),
            forall|j: int| 0 <= j < lst.len() ==> #[trigger] vs[j] == lst@[j].view(),
            f.tt == DICT_TOKEN,
            f.dict is Some,
            f.view() == (TokenView { dict: f.view().dict, ..v0 }),
            c <= lst.len(),
            v0 == old(f).view(),
            dict_fill(vs, 0, v0.dict.unwrap()) == dict_fill(vs, c as int, f.view().dict.unwrap()),
        decreases lst.len() - c,
    {
        assert(vs[c as int] == lst@[c as int].view());
        if lst[c].id == SEP {
            if c == 0 || c + 1 >= lst.len() {
                return false;
            }
            let key = lst[c - 1].value.clone();
            let value = lst[c + 1].clone();
            let _ = f.setd(key, value);
            c += 2;
        } else {
            c += 1;
        }
    }
    true
}

/// Binds every function token of `lst` in the dictionary of `f` (see `bind_functions`).
fn bind_functions_exec(f: &mut Token, lst: Vec<Token>)
    requires
        old(f).tt == DICT_TOKEN,
        old(f).dict is Some,
    ensures
        final(f).view() == (TokenView { dict: Some(bind_functions(views(lst@), old(f).view().dict.unwrap())), ..old(f).view() }),
        final(f).tt == DICT_TOKEN,
        final(f).dict is Some,
{
    let ghost v0 = f.view();
    let ghost vs = views(lst@);
    proof {
        lemma_views(lst@);
        assert(vs.skip(0) =~= vs);
    }
    let mut k: usize = 0;
    while k < lst.len()
        invariant
            vs == views(lst@),
            vs.len() == lst.len(),
            forall|j: int| 0 <= j < lst.len() ==> #[trigger] vs[j] == lst@[j].view(),
            k <= lst.len(),
            f.tt == DICT_TOKEN,
            f.dict is Some,
            f.view() == (TokenView { dict: f.view().dict, ..v0 }),
            bind_functions(vs, v0.dict.unwrap()) == bind_functions(vs.skip(k as int), f.view().dict.unwrap()),
        decreases lst.len() - k,
    {
        assert(vs.skip(k as int).skip(1) =~= vs.skip(k + 1));
        assert(vs.skip(k as int)[0] == lst@[k as int].view());
        if lst[k].id == FUN {
            let key = lst[k].value.clone();
            let value = lst[k].clone();
            let _ = f.setd(key, value);
        }
        k += 1;
    }
    assert(vs.skip(lst.len() as int).len() == 0);
}


proof fn lemma_skip_skip(s: Seq<TokenView>, i: int, k: int)
    requires
        0 <= i <= s.len(),
        0 <= k,
        i + k <= s.len(),
    ensures
        s.skip(i).skip(k) == s.skip(i + k),
{
    assert(s.skip(i).skip(k) =~= s.skip(i + k));
}

/// The parts of a function definition at `s[i..]` (see `fun_parts`): the function token,
/// its raw body, and where what follows the body starts.
fn fun_parts_exec(s: &Vec<Token>, i: usize) -> (r: Option<(Token, Vec<Token>, usize)>)
    requires
        i <= s.len(),
        s.len() < u64::MAX - 1,
    ensures
        match fun_parts(views(s@).skip(i as int)) {
            None => r is None,
            Some((fh, b, rest)) => match r {
                Some((f, body, n)) => f.view() == fh && views(body@) == b && i <= n <= s.len()
                    && views(s@).skip(n as int) == rest && f.list is Some && f.tt == LIST_TOKEN
                    && containers_present(f),
                None => false,
            },
        },
{
    proof {
        lemma_views(s@);
    }
    if s.len() - i < 3 {
        return None;
    }
    let ghost vs = views(s@);
    proof {
        reveal_strlit("{");
        reveal_strlit("}");
        assert("{"@[0] != "}"@[0]);
    }
    assert(vs.skip(i as int)[0] == s@[i as int].view());
    assert(vs.skip(i as int)[1] == s@[i + 1].view());
    proof {
        lemma_skip_skip(vs, i as int, 3);
    }
    let mut f0 = Token::new(FUN, s[i + 1].value.clone(), LIST_TOKEN);
    f0.meta(s[i].line, s[i].chara);
    proof {
        lemma_views(f0.list.unwrap()@);
        assert(views(f0.list.unwrap()@) =~= Seq::<TokenView>::empty());
        assert(f0.view() == new_view(FUN, vs.skip(i as int)[1].value, LIST_TOKEN, vs.skip(i as int)[0].line, vs.skip(i as int)[0].chara));
    }
    let p = until_paren_close_exec(s, i + 3);
    match p {
        None => {
            assert(until_paren_close(vs.skip(i as int).skip(3)) is None);
            assert(vs.skip(i as int).len() >= 3);
            assert(fun_parts(vs.skip(i as int)) is None);
            None
        },
        Some((params, n1)) => {
            let b = block_scan_exec(s, n1, "{", "}", 0);
            assert(until_paren_close(vs.skip(i as int).skip(3)) is Some);
            match b {
                None => {
                    assert(block_scan(vs.skip(n1 as int), "{"@, "}"@, 0) is None);
                    assert(fun_parts(vs.skip(i as int)) is None);
                    None
                },
                Some((body, n2)) => {
                    let mut params = params;
                    let ghost pv = views(params@);
                    let ghost old_p = params@;
                    let st = star_token();
                    params.push(st);
                    proof {
                        assert(params@ =~= old_p.push(st));
                        lemma_push_view(old_p, st);
                    }
                    let ghost f0v = f0.view();
                    push_list(&mut f0, params);
                    assert(f0.view() == with_pushed(f0v, pv + seq![star_view()]));
                    assert(fun_parts(vs.skip(i as int)) == Some((with_pushed(f0v, pv + seq![star_view()]), views(body@), vs.skip(n2 as int))));
                    Some((f0, body, n2))
                },
            }
        },
    }
}


/// The parts of a control block named `name` at `s[i..]` (see `block_parts`): the block
/// token with its header, its raw body, and where what follows the body starts.
fn block_parts_exec(s: &Vec<Token>, i: usize, name: &str) -> (r: Option<(Token, Vec<Token>, usize)>)
    requires
        i <= s.len(),
        s.len() < u64::MAX - 1,
    ensures
        match block_parts(views(s@).skip(i as int), name@) {
            None => r is None,
            Some((fh, b, rest)) => match r {
                Some((f, body, n)) => f.view() == fh && views(body@) == b && i <= n <= s.len()
                    && views(s@).skip(n as int) == rest && f.list is Some && f.tt == LIST_TOKEN
                    && containers_present(f),
                None => false,
            },
        },
{
    proof {
        lemma_views(s@);
        reveal_strlit("{");
        reveal_strlit("}");
        assert("{"@[0] != "}"@[0]);
    }
    if i >= s.len() {
        return None;
    }
    let ghost vs = views(s@);
    assert(vs.skip(i as int)[0] == s@[i as int].view());
    proof {
        lemma_skip_skip(vs, i as int, 1);
    }
    let mut f0 = make_token(CTL, name, LIST_TOKEN);
    f0.meta(s[i].line, s[i].chara);
    let ghost f0v = f0.view();
    assert(f0v == new_view(CTL, name@, LIST_TOKEN, vs.skip(i as int)[0].line, vs.skip(i as int)[0].chara));
    if str_eq(name, "elseblock") {
        let b = block_scan_exec(s, i + 1, "{", "}", 0);
        match b {
            None => None,
            Some((body, n2)) => Some((f0, body, n2)),
        }
    } else {
        let h = if str_eq(name, "forloop") {
            for_header_exec(s, i + 1)
        } else {
            match until_brace_open_exec(s, i + 1) {
                None => None,
                Some((a, n1)) => {
                    let mut a = a;
                    let ghost old_a = a@;
                    let st = star_token();
                    a.push(st);
                    proof {
                        assert(a@ =~= old_a.push(st));
                        lemma_push_view(old_a, st);
                    }
                    Some((a, n1))
                },
            }
        };
        let ghost hs: Option<(Seq<TokenView>, Seq<TokenView>)> = if name@ == "forloop"@ {
            for_header(vs.skip(i as int).skip(1))
        } else {
            match until_brace_open(vs.skip(i as int).skip(1)) {
                Some((a, b)) => Some((a + seq![star_view()], b)),
                None => None,
            }
        };
        assert(split_matches(s@, i + 1, hs, h));
        match h {
            None => None,
            Some((hv, n1)) => {
                let b = block_scan_exec(s, n1, "{", "}", 1);
                match b {
                    None => None,
                    Some((body, n2)) => {
                        push_list(&mut f0, hv);
                        Some((f0, body, n2))
                    },
                }
            },
        }
    }
}


/// Whether one step of preprocessing from `toks` at `i` with `fv` produced so far to the
/// state `r` keeps the outcome (`None`: the outcome is `None`) and makes progress.
pub open spec fn pp_step_ok(toks: Seq<Token>, i: int, fv: Seq<Token>, r: Option<(Vec<Token>, usize, Vec<Token>)>) -> bool {
    match r {
        None => pp_from(views(toks), i, views(fv)) is None,
        Some((t2, i2, f2)) => pp_from(views(toks), i, views(fv)) == pp_from(views(t2@), i2 as int, views(f2@))
            && i2 <= t2.len()
            && (t2.len() < toks.len() || (t2.len() == toks.len() && i2 > i)),
    }
}

/// One step of preprocessing at a `${` group `toks[i]`: a dictionary literal.
fn pp_dict_literal(toks: Vec<Token>, i: usize, fv: Vec<Token>) -> (r: Option<(Vec<Token>, usize, Vec<Token>)>)
    requires
        i < toks.len(),
        toks@[i as int].id == GRP,
        toks@[i as int].value@ == "${"@,
        toks.len() < u64::MAX - 1,
    ensures
        pp_step_ok(toks@, i as int, fv@, r),
{
    proof {
        lemma_views(toks@);
        lemma_skip_step(toks@, i as int);
        reveal_strlit("${");
    }
    let mut fv = fv;
    let u = until_value_close_exec(&toks, i + 1);
    match u {
        None => None,
        Some((lst, n)) => {
            if n >= toks.len() {
                assert(views(toks@).skip(n as int).len() == 0);
                assert(until_value_close(views(toks@).skip(i as int).skip(1)) is Some);
                assert(pp_from(views(toks@), i as int, views(fv@)) is None);
                return None;
            }
            let mut f = make_token(DCT, "DCT", DICT_TOKEN);
            f.meta(toks[n].line, toks[n].chara);
            if !dict_fill_exec(&mut f, &lst) {
                return None;
            }
            let toks2 = splice(&toks, i, n);
            if toks2.len() >= toks.len() {
                return None;
            }
            let ghost f_old = fv@;
            fv.push(f);
            proof {
                lemma_push_view(f_old, f);
            }
            Some((toks2, i, fv))
        },
    }
}

/// One step of preprocessing at a `$[` group `toks[i]`: a list literal.
fn pp_list_literal(toks: Vec<Token>, i: usize, fv: Vec<Token>) -> (r: Option<(Vec<Token>, usize, Vec<Token>)>)
    requires
        i < toks.len(),
        toks@[i as int].id == GRP,
        toks@[i as int].value@ == "$["@,
        toks.len() < u64::MAX - 1,
    ensures
        pp_step_ok(toks@, i as int, fv@, r),
    decreases toks.len(), 0nat,
{
    proof {
        lemma_views(toks@);
        lemma_skip_step(toks@, i as int);
        reveal_strlit("$[");
        reveal_strlit("${");
        reveal_strlit("]");
        assert("$["@[1] != "]"@[0]);
        assert("$["@ != "${"@);
    }
    let mut fv = fv;
    let b = block_scan_exec(&toks, i + 1, "$[", "]", 1);
    match b {
        None => None,
        Some((lst, n)) => {
            proof {
                lemma_views(lst@);
            }
            if lst.len() >= toks.len() {
                return None;
            }
            let pl = match preprocess_checked(lst) {
                None => {
                    return None;
                },
                Some(pl) => pl,
            };
            let mut f = make_token(LST, "LST", LIST_TOKEN);
            f.meta(toks[i].line, toks[i].chara);
            let keep = non_separators_exec(&pl);
            push_list(&mut f, keep);
            let toks2 = splice(&toks, i, n);
            if toks2.len() >= toks.len() {
                return None;
            }
            let ghost f_old = fv@;
            fv.push(f);
            proof {
                lemma_push_view(f_old, f);
            }
            Some((toks2, i, fv))
        },
    }
}

/// One step of preprocessing at a `[` group `toks[i]`: an index.
fn process_idx(toks: Vec<Token>, i: usize, fv: Vec<Token>) -> (r: Option<(Vec<Token>, usize, Vec<Token>)>)
    requires
        i < toks.len(),
        toks@[i as int].id == GRP,
        toks@[i as int].value@ == "["@,
        toks.len() < u64::MAX - 1,
    ensures
        pp_step_ok(toks@, i as int, fv@, r),
    decreases toks.len(), 0nat,
{
    proof {
        lemma_views(toks@);
        lemma_skip_step(toks@, i as int);
        reveal_strlit("[");
        reveal_strlit("]");
        assert("["@[0] != "]"@[0]);
    }
    let mut fv = fv;
    let b = block_scan_exec(&toks, i, "[", "]", 0);
    match b {
        None => None,
        Some((body, n)) => {
            proof {
                lemma_views(body@);
            }
            if body.len() >= toks.len() {
                return None;
            }
            let pb = match preprocess_checked(body) {
                None => {
                    return None;
                },
                Some(pb) => pb,
            };
            let mut f = make_token(IDX, "IDX", LIST_TOKEN);
            f.meta(toks[i].line, toks[i].chara);
            f.list = Some(pb);
            let toks2 = splice(&toks, i, n);
            if toks2.len() >= toks.len() {
                return None;
            }
            let ghost f_old = fv@;
            fv.push(f);
            proof {
                lemma_push_view(f_old, f);
            }
            Some((toks2, i, fv))
        },
    }
}

/// One step of preprocessing at the group token `toks[i]`.
fn process_grp(toks: Vec<Token>, i: usize, fv: Vec<Token>) -> (r: Option<(Vec<Token>, usize, Vec<Token>)>)
    requires
        i < toks.len(),
        toks@[i as int].id == GRP,
        toks.len() < u64::MAX - 1,
    ensures
        pp_step_ok(toks@, i as int, fv@, r),
    decreases toks.len(), 1nat,
{
    proof {
        lemma_views(toks@);
        reveal_strlit("");
    }
    let mut fv = fv;
    if str_eq(toks[i].value.as_str(), "") {
        return None;
    }
    assert(toks@[i as int].value@.len() > 0) by {
        if toks@[i as int].value@.len() == 0 {
            assert(toks@[i as int].value@ =~= ""@);
        }
    }
    if starts_with_char(toks[i].value.as_str(), '$') {
        if str_eq(toks[i].value.as_str(), "${") {
            pp_dict_literal(toks, i, fv)
        } else if str_eq(toks[i].value.as_str(), "$[") {
            pp_list_literal(toks, i, fv)
        } else {
            let t = toks[i].clone();
            let ghost f_old = fv@;
            fv.push(t);
            proof {
                lemma_push_view(f_old, t);
            }
            assert(pp_from(views(toks@), i as int, views(f_old)) == pp_from(views(toks@), i + 1, views(fv@)));
            Some((toks, i + 1, fv))
        }
    } else if str_eq(toks[i].value.as_str(), "[") {
        process_idx(toks, i, fv)
    } else {
        assert(pp_from(views(toks@), i as int, views(fv@)) == pp_from(views(toks@), i + 1, views(fv@)));
        Some((toks, i + 1, fv))
    }
}

/// One step of preprocessing at a `func`, `for`, `while`, `if` or `else` keyword `toks[i]`.
#[verifier::rlimit(80)]
fn process_block(toks: Vec<Token>, i: usize, fv: Vec<Token>) -> (r: Option<(Vec<Token>, usize, Vec<Token>)>)
    requires
        i < toks.len(),
        toks@[i as int].id == KEY,
        toks@[i as int].value@ == "func"@ || toks@[i as int].value@ == "for"@ || toks@[i as int].value@ == "while"@
            || toks@[i as int].value@ == "if"@ || toks@[i as int].value@ == "else"@,
        toks.len() < u64::MAX - 1,
    ensures
        pp_step_ok(toks@, i as int, fv@, r),
    decreases toks.len(), 0nat,
{
    proof {
        lemma_views(toks@);
        lemma_skip_step(toks@, i as int);
    }
    let ghost vt = views(toks@);
    let mut fv = fv;
    let is_func = str_eq(toks[i].value.as_str(), "func");
    let is_if = str_eq(toks[i].value.as_str(), "if");
    let parts = if is_func {
        fun_parts_exec(&toks, i)
    } else if str_eq(toks[i].value.as_str(), "for") {
        block_parts_exec(&toks, i, "forloop")
    } else if str_eq(toks[i].value.as_str(), "while") {
        block_parts_exec(&toks, i, "whileloop")
    } else if is_if {
        block_parts_exec(&toks, i, "ifblock")
    } else {
        block_parts_exec(&toks, i, "elseblock")
    };
    match parts {
        None => None,
        Some((fh, body, n)) => {
            proof {
                lemma_views(body@);
            }
            if body.len() >= toks.len() {
                return None;
            }
            let pb = match preprocess_checked(body) {
                None => {
                    return None;
                },
                Some(pb) => pb,
            };
            let mut fh = fh;
            extend_list(&mut fh, pb);
            let toks2 = splice(&toks, i, n);
            if toks2.len() >= toks.len() {
                return None;
            }
            let i2 = if is_func || (is_if && i == 0) {
                i
            } else if i == 0 {
                assert(pp_from(views(toks2@), -1, views(fv@).push(fh.view())) is None);
                return None;
            } else {
                i - 1
            };
            let ghost f_old = fv@;
            fv.push(fh);
            proof {
                lemma_push_view(f_old, fh);
            }
            Some((toks2, i2, fv))
        },
    }
}


/// Reads the members of a class body `lst` (see `class_members`), with `props` the
/// property list so far.
fn class_members_exec(lst_in: Vec<Token>, props_in: Token) -> (r: Option<(Vec<Token>, Token)>)
    requires
        lst_in.len() < u64::MAX - 1,
        props_in.tt == LIST_TOKEN,
        props_in.list is Some,
        props_in.length == 0,
    ensures
        match class_members(views(lst_in@), 0, lst_in.len() as int, props_in.view()) {
            None => r is None,
            Some((l2, p2)) => match r {
                Some((a, b)) => views(a@) == l2 && b.view() == p2,
                None => false,
            },
        },
    decreases lst_in.len(), 2nat,
{
    let ghost n0 = lst_in.len();
    let ghost c0 = class_members(views(lst_in@), 0, lst_in.len() as int, props_in.view());
    let mut lst = lst_in;
    let mut props = props_in;
    let mut ind: usize = 0;
    let mut l: usize = lst.len();
    while ind < l
        invariant
            lst.len() <= n0,
            n0 == lst_in.len(),
            n0 < u64::MAX - 1,
            c0 == class_members(views(lst_in@), 0, lst_in.len() as int, props_in.view()),
            props.tt == LIST_TOKEN,
            props.list is Some,
            props.length <= ind,
            c0 == class_members(views(lst@), ind as int, l as int, props.view()),
        decreases lst.len(), l - ind,
    {
        proof {
            lemma_views(lst@);
        }
        if ind >= lst.len() {
            return None;
        }
        let ghost vl = views(lst@);
        let old_len = lst.len();
        let is_method = tok_is(&lst[ind], KEY, "method");
        let mut lst_a: Vec<Token>;
        let l_a: usize;
        if is_method {
            proof {
                assert(vl[ind as int] == lst@[ind as int].view());
            }
            let parts = fun_parts_exec(&lst, ind);
            match parts {
                None => {
                    return None;
                },
                Some((fh, body, n)) => {
                    proof {
                        lemma_views(body@);
                    }
                    if body.len() >= lst.len() {
                        return None;
                    }
                    let pb = match preprocess_checked(body) {
                        None => {
                            return None;
                        },
                        Some(pb) => pb,
                    };
                    let mut fh = fh;
                    extend_list(&mut fh, pb);
                    let mut lst2 = splice(&lst, ind, n);
                    if lst2.len() >= lst.len() - 1 {
                        return None;
                    }
                    l_a = lst2.len();
                    let ghost l2v = lst2@;
                    lst2.insert(ind, fh);
                    proof {
                        lemma_views_insert(l2v, ind as int, fh);
                    }
                    lst_a = lst2;
                },
            }
        } else {
            lst_a = lst;
            l_a = l;
        }
        proof {
            lemma_views(lst_a@);
        }
        if ind >= lst_a.len() {
            return None;
        }
        if tok_is(&lst_a[ind], KEY, "property") {
            match property_step_exec(lst_a, ind) {
                None => {
                    return None;
                },
                Some((lst_b, ls)) => {
                    proof {
                        lemma_views(lst_b@);
                    }
                    if lst_b.len() >= old_len {
                        return None;
                    }
                    let ghost p_old = props.view();
                    let _ = props.push(ls);
                    proof {
                        assert(list_of(p_old).push(ls.view()) =~= p_old.list.unwrap() + seq![ls.view()]);
                    }
                    l = lst_b.len();
                    lst = lst_b;
                    ind += 1;
                },
            }
        } else {
            lst = lst_a;
            l = l_a;
            ind += 1;
        }
    }
    Some((lst, props))
}

/// One step of preprocessing at a `class` keyword `toks[i]`.
fn process_class(toks: Vec<Token>, i: usize, fv: Vec<Token>) -> (r: Option<(Vec<Token>, usize, Vec<Token>)>)
    requires
        i < toks.len(),
        toks@[i as int].id == KEY,
        toks@[i as int].value@ == "class"@,
        toks.len() < u64::MAX - 1,
    ensures
        pp_step_ok(toks@, i as int, fv@, r),
    decreases toks.len(), 0nat,
{
    proof {
        lemma_views(toks@);
        reveal_strlit("\"class inheritance");
        reveal_strlit("\"props");
        reveal_strlit("class");
        reveal_strlit("func");
        reveal_strlit("for");
        reveal_strlit("while");
        reveal_strlit("if");
        reveal_strlit("else");
        assert("class"@[0] != "func"@[0] && "class"@[0] != "for"@[0] && "class"@[0] != "while"@[0]
            && "class"@[0] != "if"@[0] && "class"@[0] != "else"@[0]);
    }
    let ghost vt = views(toks@);
    let n_all = toks.len();
    let mut fv = fv;
    let t = toks[i].clone();
    let i1 = i + 1;
    if i1 >= toks.len() {
        return None;
    }
    let mut toks1 = toks;
    let ghost t0 = toks1@;
    let name = toks1.remove(i1);
    proof {
        lemma_views_remove(t0, i1 as int);
        lemma_views(toks1@);
    }
    if i1 >= toks1.len() {
        return None;
    }
    let ghost vt1 = views(toks1@);
    assert(vt1 == vt.remove(i1 as int));
    let ghost sinh: Option<(Seq<TokenView>, Seq<TokenView>)> = if is_tok(vt1[i1 as int], KEY, "inheriting"@) {
        match inheritance_scan(vt1.skip(i1 + 1)) {
            None => None,
            Some((a, b)) => Some((a, vt1.take(i1 as int) + b)),
        }
    } else {
        Some((Seq::empty(), vt1))
    };
    let inh: Option<(Vec<Token>, Vec<Token>)> = if tok_is(&toks1[i1], KEY, "inheriting") {
        match inheritance_scan_exec(&toks1, i1 + 1) {
            None => None,
            Some((items, n)) => Some((items, splice(&toks1, i1, n))),
        }
    } else {
        let e: Vec<Token> = Vec::new();
        proof {
            lemma_views(e@);
            assert(views(e@) =~= Seq::<TokenView>::empty());
        }
        Some((e, toks1))
    };
    assert(match inh {
        None => sinh is None,
        Some((it, t2)) => sinh == Some((views(it@), views(t2@))),
    });
    let (items, toks2) = match inh {
        None => {
            assert(pp_from(vt, i as int, views(fv@)) is None);
            return None;
        },
        Some(x) => x,
    };
    let (lst, n2) = match class_body_scan_exec(&toks2, i1) {
        None => {
            assert(pp_from(vt, i as int, views(fv@)) is None);
            return None;
        },
        Some(x) => x,
    };
    let toks3 = splice(&toks2, i1, n2);
    proof {
        lemma_views(lst@);
        lemma_views(toks3@);
    }
    if lst.len() >= n_all || toks3.len() >= n_all {
        return None;
    }
    let props0 = make_token(LST, "props", LIST_TOKEN);
    let (lst2, props) = match class_members_exec(lst, props0) {
        None => {
            return None;
        },
        Some(x) => x,
    };
    let mut inheritance = make_token(LST, "\"class inheritance", LIST_TOKEN);
    push_list(&mut inheritance, items);
    let mut f = make_token(OBJ, name.value.as_str(), DICT_TOKEN);
    let _ = f.setd(copy_str("\"class inheritance"), inheritance);
    let _ = f.setd(copy_str("\"props"), props);
    bind_functions_exec(&mut f, lst2);
    let ghost f_old = fv@;
    fv.push(t);
    proof {
        lemma_push_view(f_old, t);
    }
    let ghost f_mid = fv@;
    fv.push(f);
    proof {
        lemma_push_view(f_mid, f);
    }
    Some((toks3, i1, fv))
}

/// Preprocesses `tokens` (see `preprocessed`): `None` exactly where the source is malformed.
pub fn preprocess_checked(tokens: Vec<Token>) -> (r: Option<Vec<Token>>)
    requires
        tokens.len() < u64::MAX - 1,
    ensures
        match preprocessed(views(tokens@)) {
            None => r is None,
            Some(p) => match r {
                Some(v) => views(v@) == p,
                None => false,
            },
        },
    decreases tokens.len(), 2nat,
{
    let ghost n0 = tokens.len();
    let ghost goal = preprocessed(views(tokens@));
    let mut toks = tokens;
    let mut i: usize = 0;
    let mut fv: Vec<Token> = Vec::new();
    proof {
        lemma_views(fv@);
        assert(views(fv@) =~= Seq::<TokenView>::empty());
    }
    loop
        invariant
            i <= toks.len(),
            toks.len() <= n0,
            n0 == tokens.len(),
            n0 < u64::MAX - 1,
            goal == preprocessed(views(tokens@)),
            goal == pp_from(views(toks@), i as int, views(fv@)),
        decreases toks.len(), toks.len() - i,
    {
        proof {
            lemma_views(toks@);
        }
        if i >= toks.len() {
            return Some(fv);
        }
        let r = if toks[i].id == GRP {
            process_grp(toks, i, fv)
        } else if toks[i].id == KEY && (str_eq(toks[i].value.as_str(), "func") || str_eq(toks[i].value.as_str(), "for")
            || str_eq(toks[i].value.as_str(), "while") || str_eq(toks[i].value.as_str(), "if")
            || str_eq(toks[i].value.as_str(), "else")) {
            process_block(toks, i, fv)
        } else if toks[i].id == KEY && str_eq(toks[i].value.as_str(), "class") {
            process_class(toks, i, fv)
        } else {
            let t = toks[i].clone();
            let ghost f_old = fv@;
            fv.push(t);
            proof {
                lemma_push_view(f_old, t);
            }
            Some((toks, i + 1, fv))
        };
        match r {
            None => {
                return None;
            },
            Some((t2, i2, f2)) => {
                toks = t2;
                i = i2;
                fv = f2;
            },
        }
    }
}

/// Preprocesses `tokens`: groups, blocks, functions and classes become tokens that hold
/// their parts (see `preprocessed`). The source must be well formed.
pub fn preprocess(tokens: Vec<Token>) -> (r: Vec<Token>)
    requires
        tokens.len() < u64::MAX - 1,
        preprocessed(views(tokens@)) is Some,
    ensures
        views(r@) == preprocessed(views(tokens@)).unwrap(),
{
    match preprocess_checked(tokens) {
        Some(v) => v,
        None => Vec::new(),
    }
}


/// Reads a property definition from `lst` at `ind` (see `property_step`).
fn property_step_exec(lst: Vec<Token>, ind: usize) -> (r: Option<(Vec<Token>, Token)>)
    requires
        ind < lst.len(),
    ensures
        match property_step(views(lst@), ind as int) {
            None => r is None,
            Some((lb, ls)) => match r {
                Some((a, t)) => views(a@) == lb && t.view() == ls,
                None => false,
            },
        },
{
    let mut lst = lst;
    let ghost sa = lst@;
    lst.remove(ind);
    proof {
        lemma_views_remove(sa, ind as int);
        lemma_views(lst@);
    }
    if lst.len() - ind < 2 {
        return None;
    }
    let mut ls = make_token(LST, lst[ind].value.as_str(), LIST_TOKEN);
    let ghost s1 = lst@;
    lst.remove(ind);
    lst.remove(ind);
    proof {
        lemma_views_remove(s1, ind as int);
        lemma_views_remove(s1.remove(ind as int), ind as int);
        lemma_views(s1);
        assert(views(s1).remove(ind as int).remove(ind as int) =~= views(s1).take(ind as int) + views(s1).skip(ind + 2));
    }
    match until_newline_exec(&lst, ind) {
        None => None,
        Some((items, n)) => {
            push_list(&mut ls, items);
            let lst_b = splice(&lst, ind, n);
            Some((lst_b, ls))
        },
    }
}

} // verus!
