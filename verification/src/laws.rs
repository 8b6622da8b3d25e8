use vstd::prelude::*;
use crate::statics::{TokenView, list_of, dict_of, GRP, KEY, REF, ASS, LIT, NLN};
use crate::parser::{PrintSettings, chase, resume, call_assignment, derefb_view, headed_view, signal_view, for_run, run_block, assignable, lit_view, printed, expr_view, resolved, resolve_one, next_newline, repeated, next_sep, print_out, is_sep};
use crate::preprocess::{pp_from, preprocessed};
use crate::decimal::{nat_digits, int_decimal, parse_int, parse_i64, all_digits, is_digit, digits_value, digit_char, digit_value};
use crate::scopes::{ScopesView, innermost_holding, outermost_holding, flag_below, udf_view};

verus! {

proof fn lemma_innermost_bound(s: Seq<Map<Seq<char>, TokenView>>, name: Seq<char>, i: int, top: int)
    requires
        0 <= i <= top < s.len(),
        s[i].contains_key(name),
        forall|j: int| i < j <= top ==> !(#[trigger] s[j]).contains_key(name),
    ensures
        innermost_holding(s, name, top) == Some(i),
    decreases top - i,
{
    if top > i {
        lemma_innermost_bound(s, name, i, top - 1);
    }
}

proof fn lemma_innermost_found(s: Seq<Map<Seq<char>, TokenView>>, name: Seq<char>, top: int)
    requires
        top < s.len(),
    ensures
        innermost_holding(s, name, top) matches Some(i) ==> 0 <= i <= top && s[i].contains_key(name)
            && forall|j: int| i < j <= top ==> !(#[trigger] s[j]).contains_key(name),
        innermost_holding(s, name, top) is None ==> forall|j: int| 0 <= j <= top ==> !(#[trigger] s[j]).contains_key(name),
    decreases top + 1,
{
    if top >= 0 {
        lemma_innermost_found(s, name, top - 1);
    }
}

proof fn lemma_outermost_bound(s: Seq<Map<Seq<char>, TokenView>>, name: Seq<char>, i: int, low: int)
    requires
        0 <= low <= i < s.len(),
        s[i].contains_key(name),
        forall|j: int| low <= j < i ==> !(#[trigger] s[j]).contains_key(name),
    ensures
        outermost_holding(s, name, low) == Some(i),
    decreases i - low,
{
    if low < i {
        lemma_outermost_bound(s, name, i, low + 1);
    }
}

proof fn lemma_outermost_found(s: Seq<Map<Seq<char>, TokenView>>, name: Seq<char>, low: int)
    requires
        0 <= low,
    ensures
        outermost_holding(s, name, low) matches Some(i) ==> low <= i < s.len() && s[i].contains_key(name)
            && forall|j: int| low <= j < i ==> !(#[trigger] s[j]).contains_key(name),
        outermost_holding(s, name, low) is None ==> forall|j: int| low <= j < s.len() ==> !(#[trigger] s[j]).contains_key(name),
    decreases s.len() - low,
{
    if low < s.len() {
        lemma_outermost_found(s, name, low + 1);
    }
}

/// A variable written and then read back, with the default (local) flag or the global
/// flag and no protection, gives the value written.
pub proof fn law_scopes_read_back(v: ScopesView, name: Seq<char>, t: TokenView)
    requires
        v.depth() >= 1,
        v.flags.len() == v.scopes.len(),
        v.protection_of(name) != 1,
        v.flag_of(name) == 0 || v.flag_of(name) == 3,
    ensures
        v.assign(name, t).lookup(name) == t,
{
    let w = v.assign(name, t);
    let top = v.depth() - 1;
    assert(w.flags == v.flags && w.protection == v.protection);
    if v.flag_of(name) == 0 {
        lemma_innermost_found(v.scopes, name, top);
        let i = match innermost_holding(v.scopes, name, top) { Some(i) => i, None => top };
        assert(w.scopes == v.scopes.update(i, v.scopes[i].insert(name, t)));
        assert forall|j: int| i < j <= top implies !(#[trigger] w.scopes[j]).contains_key(name) by {
            assert(w.scopes[j] == v.scopes[j]);
        }
        lemma_innermost_bound(w.scopes, name, i, top);
    } else {
        lemma_outermost_found(v.scopes, name, 0);
        let i = match outermost_holding(v.scopes, name, 0) { Some(i) => i, None => 0 };
        assert(w.scopes == v.scopes.update(i, v.scopes[i].insert(name, t)));
        assert forall|j: int| 0 <= j < i implies !(#[trigger] w.scopes[j]).contains_key(name) by {
            assert(w.scopes[j] == v.scopes[j]);
        }
        lemma_outermost_bound(w.scopes, name, i, 0);
    }
}

/// A unique variable (flag 4), unprotected, written and then read back gives the value
/// written: it is written and read in the innermost scope.
pub proof fn law_scopes_unique_read_back(v: ScopesView, name: Seq<char>, t: TokenView)
    requires
        v.depth() >= 1,
        v.flags.len() == v.scopes.len(),
        v.protection_of(name) != 1,
        v.flag_of(name) == 4,
    ensures
        v.assign(name, t).lookup(name) == t,
{
    let w = v.assign(name, t);
    assert(w.flags == v.flags && w.protection == v.protection);
}

/// A parent variable (flag 5), unprotected, written and then read back gives the value
/// written: it goes up exactly one level both ways.
pub proof fn law_scopes_parent_read_back(v: ScopesView, name: Seq<char>, t: TokenView)
    requires
        v.depth() >= 2,
        v.flags.len() == v.scopes.len(),
        v.protection_of(name) != 1,
        v.flag_of(name) == 5,
    ensures
        v.assign(name, t).lookup(name) == t,
{
    let w = v.assign(name, t);
    assert(w.flags == v.flags && w.protection == v.protection);
}

/// A protected name is never written.
pub proof fn law_scopes_protected_unwritten(v: ScopesView, name: Seq<char>, t: TokenView)
    requires
        v.protection_of(name) == 1,
    ensures
        v.assign(name, t) == v,
{
}

/// Closing a scope right after opening one gives back the scopes as they were.
pub proof fn law_scopes_open_close(v: ScopesView)
    ensures
        v.with_new_scope().without_top_scope() == v,
{
    assert(v.with_new_scope().without_top_scope().scopes =~= v.scopes);
    assert(v.with_new_scope().without_top_scope().flags =~= v.flags);
}

/// After a name is collected from every scope, reading it gives the undefined token,
/// whatever its flags.
pub proof fn law_scopes_collected_reads_undefined(v: ScopesView, name: Seq<char>)
    requires
        v.depth() >= 1,
    ensures
        v.collected(name).lookup(name) == udf_view(),
{
    let w = v.collected(name);
    let top = v.depth() - 1;
    assert forall|j: int| 0 <= j < w.scopes.len() implies !(#[trigger] w.scopes[j]).contains_key(name) by {}
    lemma_innermost_found(w.scopes, name, top);
    lemma_outermost_found(w.scopes, name, 0);
}

/// A list element written and then read at the same index gives the value written.
pub proof fn law_list_read_back(t: TokenView, k: int, v: TokenView)
    requires
        t.list is Some,
        0 <= k < list_of(t).len(),
    ensures
        list_of(TokenView { list: Some(list_of(t).update(k, v)), ..t })[k] == v,
{
}

/// Pushing onto a list and popping gives back the value pushed and the list and length
/// as they were.
pub proof fn law_list_push_pop(t: TokenView, v: TokenView)
    requires
        t.list is Some,
        t.length < usize::MAX,
    ensures
        ({
            let pushed = TokenView { length: (t.length + 1) as usize, list: Some(list_of(t).push(v)), ..t };
            &&& list_of(pushed).last() == v
            &&& (TokenView { length: (pushed.length - 1) as usize, list: Some(list_of(pushed).drop_last()), ..pushed }) == t
        }),
{
    let pushed = TokenView { length: (t.length + 1) as usize, list: Some(list_of(t).push(v)), ..t };
    assert(list_of(pushed).drop_last() =~= list_of(t));
}

/// A dictionary entry written and then read gives the value written.
pub proof fn law_dict_read_back(t: TokenView, key: Seq<char>, v: TokenView)
    requires
        t.dict is Some,
    ensures
        dict_of(TokenView { dict: Some(dict_of(t).insert(key, v)), ..t }).contains_key(key),
        dict_of(TokenView { dict: Some(dict_of(t).insert(key, v)), ..t })[key] == v,
{
}

/// Binding a new name in a dictionary and then removing it gives back the dictionary.
pub proof fn law_dict_set_pop(t: TokenView, key: Seq<char>, v: TokenView)
    requires
        t.dict is Some,
        !dict_of(t).contains_key(key),
    ensures
        dict_of(t).insert(key, v).remove(key) == dict_of(t),
{
    assert(dict_of(t).insert(key, v).remove(key) =~= dict_of(t));
}


/// Writing a variable never changes how many scopes are open (a variable flagged for
/// the enclosing scope needs two of them).
pub proof fn law_scopes_depth_kept(v: ScopesView, name: Seq<char>, t: TokenView)
    requires
        v.depth() >= 1,
        v.protection_of(name) != 1 && v.flag_of(name) == 5 ==> v.depth() >= 2,
    ensures
        v.assign(name, t).depth() == v.depth(),
{
    let top = v.depth() - 1;
    lemma_innermost_found(v.scopes, name, top);
    lemma_outermost_found(v.scopes, name, 0);
}

/// Removing or collecting a variable never changes how many scopes are open.
pub proof fn law_scopes_removal_depth(v: ScopesView, name: Seq<char>)
    requires
        v.depth() >= 1,
    ensures
        v.removal(name).depth() == v.depth(),
        v.collected(name).depth() == v.depth(),
{
    let top = v.depth() - 1;
    lemma_innermost_found(v.scopes, name, top);
    lemma_outermost_found(v.scopes, name, 0);
}

/// Scopes that agree on `name` in every scope find it in the same scopes.
proof fn lemma_holding_agree(s1: Seq<Map<Seq<char>, TokenView>>, s2: Seq<Map<Seq<char>, TokenView>>, name: Seq<char>, i: int)
    requires
        s1.len() == s2.len(),
        forall|j: int| 0 <= j < s1.len() ==> (#[trigger] s1[j]).contains_key(name) == s2[j].contains_key(name),
    ensures
        i < s1.len() ==> innermost_holding(s1, name, i) == innermost_holding(s2, name, i),
        0 <= i ==> outermost_holding(s1, name, i) == outermost_holding(s2, name, i),
    decreases s1.len() + 1 - i,
{
    if i >= 0 && i < s1.len() {
        lemma_holding_agree(s1, s2, name, i + 1);
    }
    if i < s1.len() {
        lemma_innermost_agree(s1, s2, name, i);
    }
}

proof fn lemma_innermost_agree(s1: Seq<Map<Seq<char>, TokenView>>, s2: Seq<Map<Seq<char>, TokenView>>, name: Seq<char>, i: int)
    requires
        s1.len() == s2.len(),
        i < s1.len(),
        forall|j: int| 0 <= j < s1.len() ==> (#[trigger] s1[j]).contains_key(name) == s2[j].contains_key(name),
    ensures
        innermost_holding(s1, name, i) == innermost_holding(s2, name, i),
    decreases i + 1,
{
    if i >= 0 {
        lemma_innermost_agree(s1, s2, name, i - 1);
    }
}

/// Where writing `name` goes: nowhere, or into one of the open scopes.
proof fn lemma_assign_shape(v: ScopesView, name: Seq<char>, t: TokenView) -> (i: int)
    requires
        v.depth() >= 1,
        v.protection_of(name) != 1 && v.flag_of(name) == 5 ==> v.depth() >= 2,
    ensures
        v.assign(name, t) == v || (0 <= i < v.depth() && v.assign(name, t) == v.bind_in(i, name, t)),
{
    let top = v.depth() - 1;
    lemma_innermost_found(v.scopes, name, top);
    lemma_outermost_found(v.scopes, name, 0);
    let f = v.flag_of(name);
    if v.protection_of(name) == 1 {
        0
    } else if f % 2 == 0 && f < 3 {
        match innermost_holding(v.scopes, name, top) {
            Some(i) => i,
            None => top,
        }
    } else if f < 4 {
        match outermost_holding(v.scopes, name, 0) {
            Some(i) => i,
            None => 0,
        }
    } else if f == 4 {
        top
    } else if f == 5 {
        top - 1
    } else {
        0
    }
}

/// Writing a variable leaves what every other name reads as it was.
pub proof fn law_scopes_other_names_kept(v: ScopesView, name: Seq<char>, other: Seq<char>, t: TokenView)
    requires
        v.depth() >= 1,
        name != other,
        v.protection_of(name) != 1 && v.flag_of(name) == 5 ==> v.depth() >= 2,
    ensures
        v.assign(name, t).lookup(other) == v.lookup(other),
{
    let w = v.assign(name, t);
    let i = lemma_assign_shape(v, name, t);
    if w != v {
        assert(w == v.bind_in(i, name, t));
        assert forall|j: int| 0 <= j < v.scopes.len() implies (#[trigger] w.scopes[j]).contains_key(other) == v.scopes[j].contains_key(other)
            && (v.scopes[j].contains_key(other) ==> w.scopes[j][other] == v.scopes[j][other]) by {
            if j == i {
                assert(w.scopes[j] == v.scopes[j].insert(name, t));
            } else {
                assert(w.scopes[j] == v.scopes[j]);
            }
        }
        lemma_holding_agree(w.scopes, v.scopes, other, 0);
        lemma_holding_agree(w.scopes, v.scopes, other, v.depth() - 1);
        lemma_innermost_found(v.scopes, other, v.depth() - 1);
        lemma_outermost_found(v.scopes, other, 0);
    }
}

proof fn lemma_nat_digits_read_back(n: nat)
    ensures
        nat_digits(n).len() > 0,
        all_digits(nat_digits(n)),
        nat_digits(n)[0] != '-' && nat_digits(n)[0] != '+',
        digits_value(nat_digits(n)) == n,
    decreases n,
{
    if n < 10 {
        let c = digit_char(n);
        assert(c as int == '0' as int + n);
        assert(nat_digits(n) =~= seq![c]);
        assert(seq![c].drop_last() =~= Seq::<char>::empty());
        assert(digit_value(c) == n);
        assert(digits_value(seq![c]) == digits_value(Seq::<char>::empty()) * 10 + digit_value(c));
    } else {
        lemma_nat_digits_read_back(n / 10);
        let d = digit_char(n % 10);
        assert(d as int == '0' as int + n % 10);
        let s = nat_digits(n / 10);
        assert(nat_digits(n) == s.push(d));
        assert(s.push(d).drop_last() =~= s);
        assert forall|i: int| 0 <= i < s.push(d).len() implies is_digit(#[trigger] s.push(d)[i]) by {
            if i < s.len() {
                assert(s.push(d)[i] == s[i]);
            }
        }
        assert(s.push(d)[0] == s[0]);
        assert(digit_value(d) == n % 10);
        assert(digits_value(s.push(d)) == digits_value(s) * 10 + digit_value(d));
        assert(n == (n / 10) * 10 + n % 10);
    }
}

/// Writing an integer in decimal and reading the text back gives the integer.
pub proof fn law_decimal_round_trip(n: int)
    ensures
        parse_int(int_decimal(n)) == Some(n),
        i64::MIN <= n <= i64::MAX ==> parse_i64(int_decimal(n)) == Some(n as i64),
{
    if n < 0 {
        let m = (-n) as nat;
        lemma_nat_digits_read_back(m);
        let s = seq!['-'] + nat_digits(m);
        assert(s.skip(1) =~= nat_digits(m));
        assert(s[0] == '-');
    } else {
        lemma_nat_digits_read_back(n as nat);
    }
}

/// Whether preprocessing passes `t` through as it is: no group, and no keyword that opens
/// a function, a loop, a branch or a class.
pub open spec fn passes_through(t: TokenView) -> bool {
    &&& t.id != GRP
    &&& !(t.id == KEY && (t.value == "func"@ || t.value == "for"@ || t.value == "while"@
        || t.value == "if"@ || t.value == "else"@ || t.value == "class"@))
}

proof fn lemma_pp_plain_from(toks: Seq<TokenView>, i: int)
    requires
        0 <= i <= toks.len(),
        forall|j: int| 0 <= j < toks.len() ==> passes_through(#[trigger] toks[j]),
    ensures
        pp_from(toks, i, toks.take(i)) == Some(toks),
    decreases toks.len() - i,
{
    if i == toks.len() {
        assert(toks.take(i) =~= toks);
    } else {
        let t = toks[i];
        assert(passes_through(t));
        assert(toks.take(i).push(t) =~= toks.take(i + 1));
        lemma_pp_plain_from(toks, i + 1);
    }
}

/// Preprocessing leaves tokens without groups and without block or class keywords as
/// they are.
pub proof fn law_preprocess_keeps_plain_tokens(toks: Seq<TokenView>)
    requires
        forall|j: int| 0 <= j < toks.len() ==> passes_through(#[trigger] toks[j]),
    ensures
        preprocessed(toks) == Some(toks),
{
    lemma_pp_plain_from(toks, 0);
    assert(toks.take(0) =~= Seq::<TokenView>::empty());
}

/// Following references ends at a value that is no reference.
pub proof fn law_deref_gives_no_reference(m: ScopesView, cur: TokenView, seen: Seq<Seq<char>>, budget: nat)
    ensures
        chase(m, cur, seen, budget) matches Some(v) ==> v.id != REF,
    decreases budget,
{
    if cur.id == REF && !seen.contains(cur.value) && budget > 0 {
        law_deref_gives_no_reference(m, m.lookup(cur.value), seen.push(cur.value), (budget - 1) as nat);
    }
}

/// A name bound in no scope, written once and then protected, reads as the value
/// written.
pub proof fn law_scopes_fresh_protected_read(v: ScopesView, name: Seq<char>, t: TokenView)
    requires
        v.depth() >= 1,
        v.protection_of(name) != 1,
        v.flag_of(name) <= 5,
        v.flag_of(name) == 5 ==> v.depth() >= 2,
        forall|j: int| 0 <= j < v.depth() ==> !(#[trigger] v.scopes[j]).contains_key(name),
    ensures
        (ScopesView { protection: v.assign(name, t).protection.insert(name, 1), ..v.assign(name, t) }).lookup(name) == t,
{
    let w = v.assign(name, t);
    let top = v.depth() - 1;
    lemma_innermost_found(v.scopes, name, top);
    lemma_outermost_found(v.scopes, name, 0);
    let f = v.flag_of(name);
    let i: int = if f % 2 == 0 && f < 3 { top } else if f < 4 { 0 } else if f == 4 { top } else { top - 1 };
    assert(w == v.bind_in(i, name, t));
    assert forall|j: int| 0 <= j < i implies !(#[trigger] w.scopes[j]).contains_key(name) by {
        assert(w.scopes[j] == v.scopes[j]);
    }
    lemma_outermost_bound(w.scopes, name, i, 0);
}

/// A program that assigns a literal to a variable and then prints the variable (marked
/// `$`) prints the literal's text, and leaves the variable bound to the literal; the
/// variable is unprotected and local or global.
#[verifier::rlimit(60)]
#[verifier::spinoff_prover]
pub proof fn law_program_prints_what_was_assigned(m: ScopesView, name: Seq<char>, target: TokenView, ass: TokenView,
    lit: TokenView, end1: TokenView, pr: TokenView, reference: TokenView, end2: TokenView, p: PrintSettings, fuel: nat)
    requires
        m.depth() >= 1,
        m.flags.len() == m.scopes.len(),
        m.protection_of(name) != 1,
        m.flag_of(name) == 0 || m.flag_of(name) == 3,
        target.id == REF && target.value == name,
        ass.id == ASS && ass.value == "="@,
        lit.id == LIT && printed(lit.value) is Some,
        end1.id == NLN && end2.id == NLN,
        pr.id == KEY && pr.value == "print"@,
        reference.id == REF && reference.value == seq!['$'] + name,
    ensures
        resume(seq![target, ass, lit, end1, pr, reference, end2], 0, m, p, false, fuel)
            == Some((seq![printed(lit.value).unwrap(), repeated("\n"@, p.line_ends)], m.assign(name, lit), p, None::<TokenView>)),
{
    let s = seq![target, ass, lit, end1, pr, reference, end2];
    let m2 = m.assign(name, lit);
    law_scopes_read_back(m, name, lit);
    if fuel >= 1 {
        assert(s[2] == lit);
        assert(derefb_view(m, lit, (fuel - 1) as nat) == Some(lit));
        assert(call_assignment(s, 1, m, p, (fuel - 1) as nat) is None);
    }
    assert(reference.value.skip(1) =~= name);
    assert(s.subrange(2, 3) =~= seq![lit]);
    assert(s.subrange(5, 6) =~= seq![reference]);
    assert(next_newline(s, 3) == 3);
    assert(next_newline(s, 2) == 3);
    assert(next_newline(s, 6) == 6);
    assert(next_newline(s, 5) == 6);
    assert(expr_view(m, seq![lit]) == Some(lit)) by {
        reveal(expr_view);
        assert(resolved(m, seq![lit]) == Some(seq![lit])) by {
            assert(Seq::new(1, |j: int| resolve_one(m, seq![lit][j]).unwrap()) =~= seq![lit]);
        }
    }
    assert(expr_view(m2, seq![reference]) == Some(lit)) by {
        reveal(expr_view);
        assert(resolve_one(m2, reference) == Some(lit));
        assert(resolved(m2, seq![reference]) == Some(seq![lit])) by {
            assert(Seq::new(1, |j: int| resolve_one(m2, seq![reference][j]).unwrap()) =~= seq![lit]);
        }
    }
    assert(resume(s, 7, m2, p, false, fuel) == Some((Seq::<Seq<char>>::empty(), m2, p, None::<TokenView>)));
    assert(s[5] == reference);
    assert(!is_sep(s[5]));
    assert(next_sep(s, 6, 6) == 6);
    assert(next_sep(s, 5, 6) == 6);
    assert(print_out(m2, s, 5, 6, p.separator()) == Some(seq![printed(lit.value).unwrap()]));
    assert(seq![printed(lit.value).unwrap()] + seq![repeated("\n"@, p.line_ends)] + Seq::<Seq<char>>::empty()
        =~= seq![printed(lit.value).unwrap(), repeated("\n"@, p.line_ends)]);
    assert(resume(s, 4, m2, p, false, fuel) == Some((seq![printed(lit.value).unwrap(), repeated("\n"@, p.line_ends)], m2, p, None::<TokenView>))) by {
        assert(seq![printed(lit.value).unwrap(), repeated("\n"@, p.line_ends)] + Seq::<Seq<char>>::empty()
            =~= seq![printed(lit.value).unwrap(), repeated("\n"@, p.line_ends)]);
    }
    assert(resume(s, 3, m2, p, false, fuel) == resume(s, 4, m2, p, false, fuel));
    assert(resume(s, 2, m2, p, false, fuel) == resume(s, 3, m2, p, false, fuel));
    assert(resume(s, 1, m, p, false, fuel) == resume(s, 2, m2, p, false, fuel));
    assert(resume(s, 0, m, p, false, fuel) == resume(s, 1, m, p, false, fuel));
}

/// A `return` statement ends the run where it stands: nothing after it runs, nothing
/// more is printed or changed, and the run gives the value of its expression.
pub proof fn law_return_ends_the_run(s: Seq<TokenView>, k: int, m: ScopesView, p: PrintSettings, c: bool, fuel: nat)
    requires
        0 <= k < s.len(),
        s[k].id == KEY,
        s[k].value == "return"@,
        headed_view(m, s.subrange(k + 1, next_newline(s, k + 1))) is Some,
    ensures
        resume(s, k, m, p, c, fuel) == Some((Seq::<Seq<char>>::empty(), m, p,
            Some(headed_view(m, s.subrange(k + 1, next_newline(s, k + 1))).unwrap()))),
{
    reveal_strlit("return");
    reveal_strlit("print");
    reveal_strlit("break");
    reveal_strlit("continue");
    assert("return"@[0] != "print"@[0] && "return"@[0] != "break"@[0] && "return"@[0] != "continue"@[0]);
}

/// A `break` or `continue` statement ends the run where it stands: nothing after it
/// runs, nothing more is printed or changed, and the run gives its signal.
pub proof fn law_break_and_continue_end_the_run(s: Seq<TokenView>, k: int, m: ScopesView, p: PrintSettings, c: bool,
    fuel: nat)
    requires
        0 <= k < s.len(),
        s[k].id == KEY,
        s[k].value == "break"@ || s[k].value == "continue"@,
    ensures
        resume(s, k, m, p, c, fuel) == Some((Seq::<Seq<char>>::empty(), m, p,
            Some(signal_view(if s[k].value == "break"@ { "BREAK"@ } else { "CONTINUE"@ })))),
{
    reveal_strlit("print");
    reveal_strlit("break");
    reveal_strlit("continue");
    assert("break"@[0] != "print"@[0] && "continue"@[0] != "print"@[0] && "break"@[0] != "continue"@[0]);
}

/// A round of a `for` loop whose body ends with the break signal is its last: the loop
/// ends with what that round printed and left.
pub proof fn law_break_ends_a_for_loop(b: Seq<TokenView>, name: Seq<char>, n: int, end: int, m: ScopesView,
    p: PrintSettings, fuel: nat)
    requires
        n < end,
        assignable(m, name),
        run_block(b, m.assign(name, lit_view(int_decimal(n))), p, fuel) is Some,
        run_block(b, m.assign(name, lit_view(int_decimal(n))), p, fuel).unwrap().3 == Some(signal_view("BREAK"@)),
    ensures
        ({
            let rb = run_block(b, m.assign(name, lit_view(int_decimal(n))), p, fuel).unwrap();
            for_run(b, name, n, end, m, p, fuel) == Some((rb.0, rb.1, rb.2))
        }),
{
    reveal(for_run);
    reveal_strlit("BREAK");
}

} // verus!
