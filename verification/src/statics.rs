use vstd::prelude::*;
use vstd::utf8::encode_utf8;
use crate::text::{str_eq, chars_of, string_of, copy_str, joined};
use crate::decimal::{int_decimal, i64_to_string};
use crate::pattern::{pattern_matches, pattern_found};
use crate::replacer::{Replacer, BACKSLASH_RE_PAT, replace_escaped, replace_all, replace_all_chars};

verus! {

/// Version string reported by the interpreter.
pub const VERSION: &'static str = "β1.1.class";

/// Namespace identifier of the global scope.
pub const GLOBAL: usize = 0;
/// Namespace identifier of the innermost scope.
pub const LOCAL: usize = 1;

/// A token without a container.
pub const BASE_TOKEN: u8 = 0;
/// A token that carries a dictionary.
pub const DICT_TOKEN: u8 = 1;
/// A token that carries a list.
pub const LIST_TOKEN: u8 = 2;

pub const NUL: u8 = 0;
pub const FUN: u8 = 1;
pub const REF: u8 = 2;
pub const LIT: u8 = 3;
pub const IDX: u8 = 4;
pub const KEY: u8 = 5;
pub const MAT: u8 = 6;
pub const LOG: u8 = 7;
pub const ASS: u8 = 8;
pub const PAR: u8 = 9;
pub const LST: u8 = 10;
pub const DCT: u8 = 11;
pub const OBJ: u8 = 12;
pub const SEP: u8 = 13;
pub const SYM: u8 = 14;
pub const GRP: u8 = 15;
pub const DOT: u8 = 16;
pub const CTL: u8 = 17;
pub const NLN: u8 = 18;
pub const UDF: u8 = 19;
pub const MET: u8 = 20;
pub const SIG: u8 = 21;
pub const BND: u8 = 22;
pub const MOD: u8 = 23;
pub const PTH: u8 = 24;
pub const PTR: u8 = 25;

/// Extension of program files.
pub const FILE_EXT: &'static str = ".ihl";

pub const WORD_RE_PAT: &'static str = r"[[:alpha:]]+[[:word:]]*";
pub const CONTAINER_RE_PAT: &'static str = r#"[{\["(]"#;
pub const NUMBER_RE_PAT: &'static str = r"^(0b[01]+|0x[0-9a-f]+|[0-9]+(\.[0-9]+)?)";
pub const DECI_RE_PAT: &'static str = r"[0-9]+\.[0-9]+";
pub const LITERAL_RE_PAT: &'static str = r"true|false|null";
pub const LOGIC_RE_PAT: &'static str = r"[!^%|&><]|(<=|>=)";
pub const PAREN_RE_PAT: &'static str = r"[()]";
pub const GROUP_RE_PAT: &'static str = r"$?[{}\[\]]";
pub const SEPER_RE_PAT: &'static str = r"[:,]";
pub const KEYWD_RE_PAT: &'static str = r"\b(global|local|unique|parent|func|print|dumpscope|rm|garbage|log|return|dumptoks|dumplc|dumpflags|in|for|HALT|break|continue|while|if|else|linkup|module|readonly|private|class|property|method|inheriting|from|dumpobj|create|static)\b";
pub const ASIGN_RE_PAT: &'static str = r"=";
pub const MATHM_RE_PAT: &'static str = r"[-+*/]";
pub const TOKEN_STR_RE_PAT: &'static str = r#"^".*"$"#;
pub const TOKEN_BIN_NUM_RE_PAT: &'static str = r"^0b[01]+";
pub const TOKEN_HEX_NUM_RE_PAT: &'static str = r"^0x[0-9a-f]+";
pub const TOKEN_DEC_NUM_RE_PAT: &'static str = r"^[0-9]+(\.[0-9]+)?";
pub const ALPHA_RE_PAT: &'static str = r"^[a-zA-Z]*$";
pub const DIGIT_RE_PAT: &'static str = r"^[0-9]*$";

pub const DT_UDF: u8 = 0;
pub const DT_STR: u8 = 1;
pub const DT_NUM: u8 = 2;
pub const DT_BOL: u8 = 3;
pub const DT_LST: u8 = 4;
pub const DT_DCT: u8 = 5;
pub const DT_OBJ: u8 = 6;
pub const DT_MOD: u8 = 7;

/// A lexical unit of a program, and at run time a value: a base token, or one that
/// carries a list or a dictionary of tokens.
pub struct Token {
    pub id: u8,
    pub cid: u8,
    pub value: String,
    pub dict: Option<TokenDict>,
    pub list: Option<Vec<Token>>,
    pub length: usize,
    pub data_type: u8,
    pub escape: bool,
    pub line: usize,
    pub chara: usize,
    pub tt: u8,
}

/// The dictionary of a token: names bound to tokens, no name twice.
pub struct TokenDict {
    entries: Vec<(String, Token)>,
}

/// What a token denotes: all its fields but the transient `escape` flag, with its
/// list and dictionary seen as mathematical sequences and maps.
pub ghost struct TokenView {
    pub id: u8,
    pub cid: u8,
    pub value: Seq<char>,
    pub dict: Option<Map<Seq<char>, TokenView>>,
    pub list: Option<Seq<TokenView>>,
    pub length: usize,
    pub data_type: u8,
    pub line: usize,
    pub chara: usize,
    pub tt: u8,
}

/// The views of a sequence of tokens.
pub open spec fn views(s: Seq<Token>) -> Seq<TokenView>
    decreases s,
{
    if s.len() == 0 {
        Seq::empty()
    } else {
        views(s.drop_last()).push(s.last().view())
    }
}

/// The map that an association list denotes (keys assumed distinct).
pub open spec fn entries_view(s: Seq<(String, Token)>) -> Map<Seq<char>, TokenView>
    decreases s,
{
    if s.len() == 0 {
        Map::empty()
    } else {
        entries_view(s.drop_last()).insert(s.last().0@, s.last().1.view())
    }
}

/// Whether no name occurs twice in an association list.
pub open spec fn keys_unique(e: Seq<(String, Token)>) -> bool {
    forall|i: int, j: int| 0 <= i < j < e.len() ==> (#[trigger] e[i]).0@ != (#[trigger] e[j]).0@
}

/// In an association list without repeated names, the map holds exactly its names,
/// each bound to the view of its token.
pub proof fn lemma_entries_view_lookup(e: Seq<(String, Token)>)
    requires
        keys_unique(e),
    ensures
        forall|k: Seq<char>| #[trigger] entries_view(e).contains_key(k) <==> exists|i: int| 0 <= i < e.len() && (#[trigger] e[i]).0@ == k,
        forall|i: int| 0 <= i < e.len() ==> #[trigger] entries_view(e)[e[i].0@] == e[i].1.view(),
    decreases e.len(),
{
    if e.len() > 0 {
        let p = e.drop_last();
        assert(keys_unique(p)) by {
            assert forall|i: int, j: int| 0 <= i < j < p.len() implies (#[trigger] p[i]).0@ != (#[trigger] p[j]).0@ by {
                assert(p[i] == e[i] && p[j] == e[j]);
            }
        }
        lemma_entries_view_lookup(p);
        assert forall|k: Seq<char>| #[trigger] entries_view(e).contains_key(k) <==> exists|i: int| 0 <= i < e.len() && (#[trigger] e[i]).0@ == k by {
            if entries_view(e).contains_key(k) && k != e.last().0@ {
                let i = choose|i: int| 0 <= i < p.len() && (#[trigger] p[i]).0@ == k;
                assert(e[i] == p[i]);
            }
            if exists|i: int| 0 <= i < e.len() && (#[trigger] e[i]).0@ == k {
                let i = choose|i: int| 0 <= i < e.len() && (#[trigger] e[i]).0@ == k;
                if i < e.len() - 1 {
                    assert(p[i] == e[i]);
                }
            }
        }
        assert forall|i: int| 0 <= i < e.len() implies #[trigger] entries_view(e)[e[i].0@] == e[i].1.view() by {
            if i < e.len() - 1 {
                assert(p[i] == e[i]);
                assert(e[i].0@ != e[e.len() - 1].0@);
            }
        }
    }
}

/// Replacing the token at a position (same name) rebinds that name.
pub proof fn lemma_entries_view_update(e: Seq<(String, Token)>, i: int, k: String, t: Token)
    requires
        keys_unique(e),
        0 <= i < e.len(),
        k@ == e[i].0@,
    ensures
        entries_view(e.update(i, (k, t))) == entries_view(e).insert(k@, t.view()),
        keys_unique(e.update(i, (k, t))),
    decreases e.len(),
{
    let e2 = e.update(i, (k, t));
    let p = e.drop_last();
    assert(keys_unique(p)) by {
        assert forall|a: int, b: int| 0 <= a < b < p.len() implies (#[trigger] p[a]).0@ != (#[trigger] p[b]).0@ by {
            assert(p[a] == e[a] && p[b] == e[b]);
        }
    }
    assert(keys_unique(e2)) by {
        assert forall|a: int, b: int| 0 <= a < b < e2.len() implies (#[trigger] e2[a]).0@ != (#[trigger] e2[b]).0@ by {
            assert(e2[a].0@ == e[a].0@ && e2[b].0@ == e[b].0@);
        }
    }
    if i == e.len() - 1 {
        assert(e2.drop_last() =~= p);
        assert(entries_view(e2) =~= entries_view(e).insert(k@, t.view()));
    } else {
        assert(e2.drop_last() =~= p.update(i, (k, t)));
        lemma_entries_view_update(p, i, k, t);
        assert(e[i].0@ != e[e.len() - 1].0@);
        assert(entries_view(e2) =~= entries_view(e).insert(k@, t.view()));
    }
}

/// Removing the entry at a position unbinds its name.
pub proof fn lemma_entries_view_remove(e: Seq<(String, Token)>, i: int)
    requires
        keys_unique(e),
        0 <= i < e.len(),
    ensures
        entries_view(e.remove(i)) == entries_view(e).remove(e[i].0@),
        keys_unique(e.remove(i)),
    decreases e.len(),
{
    let e2 = e.remove(i);
    let p = e.drop_last();
    assert(keys_unique(p)) by {
        assert forall|a: int, b: int| 0 <= a < b < p.len() implies (#[trigger] p[a]).0@ != (#[trigger] p[b]).0@ by {
            assert(p[a] == e[a] && p[b] == e[b]);
        }
    }
    assert(keys_unique(e2)) by {
        assert forall|a: int, b: int| 0 <= a < b < e2.len() implies (#[trigger] e2[a]).0@ != (#[trigger] e2[b]).0@ by {
            let a0 = if a < i { a } else { a + 1 };
            let b0 = if b < i { b } else { b + 1 };
            assert(e2[a] == e[a0] && e2[b] == e[b0]);
        }
    }
    lemma_entries_view_lookup(p);
    if i == e.len() - 1 {
        assert(e2 =~= p);
        assert forall|j: int| 0 <= j < p.len() implies (#[trigger] p[j]).0@ != e[i].0@ by {
            assert(p[j] == e[j]);
        }
        assert(!entries_view(p).contains_key(e[i].0@));
        assert(entries_view(e2) =~= entries_view(e).remove(e[i].0@));
    } else {
        assert(e2.drop_last() =~= p.remove(i));
        assert(e2.last() == e.last());
        lemma_entries_view_remove(p, i);
        assert(p[i] == e[i]);
        assert(e[i].0@ != e[e.len() - 1].0@);
        assert(entries_view(e2) =~= entries_view(e).remove(e[i].0@));
    }
}

impl TokenDict {
    pub closed spec fn view(&self) -> Map<Seq<char>, TokenView>
        decreases self,
    {
        entries_view(self.entries@)
    }

    #[verifier::type_invariant]
    closed spec fn names_distinct(self) -> bool {
        keys_unique(self.entries@)
    }

    /// The bound names, in the order they were first bound.
    pub closed spec fn names(&self) -> Seq<Seq<char>> {
        Seq::new(self.entries@.len(), |i: int| self.entries@[i].0@)
    }

    /// An empty dictionary.
    pub fn new() -> (r: TokenDict)
        ensures
            r.view() == Map::<Seq<char>, TokenView>::empty(),
    {
        TokenDict { entries: Vec::new() }
    }

    /// Where `key` stands in the entries, if it does.
    fn position(&self, key: &str) -> (r: Option<usize>)
        ensures
            match r {
                Some(i) => i < self.entries.len() && self.entries@[i as int].0@ == key@,
                None => forall|i: int| 0 <= i < self.entries.len() ==> (#[trigger] self.entries@[i]).0@ != key@,
            },
    {
        let mut i: usize = 0;
        while i < self.entries.len()
            invariant
                i <= self.entries.len(),
                forall|j: int| 0 <= j < i ==> (#[trigger] self.entries@[j]).0@ != key@,
            decreases self.entries.len() - i,
        {
            if str_eq(self.entries[i].0.as_str(), key) {
                return Some(i);
            }
            i += 1;
        }
        None
    }

    /// Whether `key` is bound.
    pub fn contains_key(&self, key: &str) -> (r: bool)
        ensures
            r == self.view().contains_key(key@),
    {
        proof {
            use_type_invariant(self);
            lemma_entries_view_lookup(self.entries@);
        }
        self.position(key).is_some()
    }

    /// The token bound to `key`, if any.
    pub fn get(&self, key: &str) -> (r: Option<&Token>)
        ensures
            self.view().contains_key(key@) <==> r is Some,
            r matches Some(t) ==> t.view() == self.view()[key@],
    {
        proof {
            use_type_invariant(self);
            lemma_entries_view_lookup(self.entries@);
        }
        match self.position(key) {
            Some(i) => Some(&self.entries[i].1),
            None => None,
        }
    }

    /// Binds `key` to `value`, replacing any earlier binding.
    pub fn insert(&mut self, key: String, value: Token)
        ensures
            final(self).view() == old(self).view().insert(key@, value.view()),
    {
        proof {
            use_type_invariant(&*self);
            lemma_entries_view_lookup(self.entries@);
        }
        let ghost kv = key@;
        let ghost vv = value.view();
        match self.position(key.as_str()) {
            Some(i) => {
                proof {
                    lemma_entries_view_update(self.entries@, i as int, key, value);
                }
                let mut e: Vec<(String, Token)> = Vec::new();
                std::mem::swap(&mut e, &mut self.entries);
                e.set(i, (key, value));
                self.entries = e;
            },
            None => {
                let ghost old_e = self.entries@;
                let mut e: Vec<(String, Token)> = Vec::new();
                std::mem::swap(&mut e, &mut self.entries);
                e.push((key, value));
                assert(e@.drop_last() =~= old_e);
                assert(keys_unique(e@)) by {
                    assert forall|a: int, b: int| 0 <= a < b < e@.len() implies (#[trigger] e@[a]).0@ != (#[trigger] e@[b]).0@ by {
                        if b < old_e.len() {
                            assert(e@[a] == old_e[a] && e@[b] == old_e[b]);
                        } else {
                            assert(e@[a] == old_e[a]);
                        }
                    }
                }
                self.entries = e;
            },
        }
    }

    /// Unbinds `key`, giving back its token, if it was bound.
    pub fn remove(&mut self, key: &str) -> (r: Option<Token>)
        ensures
            old(self).view().contains_key(key@) <==> r is Some,
            r matches Some(t) ==> t.view() == old(self).view()[key@],
            final(self).view() == old(self).view().remove(key@),
    {
        proof {
            use_type_invariant(&*self);
            lemma_entries_view_lookup(self.entries@);
        }
        match self.position(key) {
            Some(i) => {
                proof {
                    lemma_entries_view_remove(self.entries@, i as int);
                }
                let mut e: Vec<(String, Token)> = Vec::new();
                std::mem::swap(&mut e, &mut self.entries);
                let (_, t) = e.remove(i);
                self.entries = e;
                Some(t)
            },
            None => {
                assert(old(self).view().remove(key@) =~= old(self).view());
                None
            },
        }
    }

    /// Unbinds every name.
    pub fn clear(&mut self)
        ensures
            final(self).view() == Map::<Seq<char>, TokenView>::empty(),
    {
        self.entries = Vec::new();
    }

    /// How many names are bound. The names in the order they were first bound are the
    /// bound names, each once.
    pub fn len(&self) -> (r: usize)
        ensures
            r == self.view().len(),
            r == self.names().len(),
            self.names().no_duplicates(),
            forall|k: Seq<char>| self.view().contains_key(k) <==> #[trigger] self.names().contains(k),
    {
        proof {
            use_type_invariant(self);
            lemma_entries_view_len(self.entries@);
            lemma_entries_view_lookup(self.entries@);
            let n = self.names();
            assert forall|a: int, b: int| 0 <= a < n.len() && 0 <= b < n.len() && a != b implies n[a] != n[b] by {
                if a < b {
                    assert(self.entries@[a].0@ != self.entries@[b].0@);
                } else {
                    assert(self.entries@[b].0@ != self.entries@[a].0@);
                }
            }
            assert forall|k: Seq<char>| self.view().contains_key(k) <==> #[trigger] n.contains(k) by {
                if self.view().contains_key(k) {
                    let i = choose|i: int| 0 <= i < self.entries@.len() && (#[trigger] self.entries@[i]).0@ == k;
                    assert(n[i] == k);
                }
                if n.contains(k) {
                    let i = choose|i: int| 0 <= i < n.len() && n[i] == k;
                    assert(self.entries@[i].0@ == k);
                }
            }
        }
        self.entries.len()
    }

    /// Whether every bound token has a known kind (an identifier up to `PTR`).
    pub fn kinds_known(&self) -> (r: bool)
        ensures
            r == forall|k: Seq<char>| #[trigger] self.view().contains_key(k) ==> self.view()[k].id <= PTR,
    {
        proof {
            use_type_invariant(self);
            lemma_entries_view_lookup(self.entries@);
        }
        let mut i: usize = 0;
        while i < self.entries.len()
            invariant
                i <= self.entries.len(),
                keys_unique(self.entries@),
                forall|j: int| 0 <= j < i ==> (#[trigger] self.entries@[j]).1.id <= PTR,
            decreases self.entries.len() - i,
        {
            if self.entries[i].1.id > PTR {
                proof {
                    lemma_entries_view_lookup(self.entries@);
                    assert(exists|j: int| 0 <= j < self.entries@.len() && (#[trigger] self.entries@[j]).0@ == self.entries@[i as int].0@);
                    assert(self.view().contains_key(self.entries@[i as int].0@));
                    assert(self.view()[self.entries@[i as int].0@] == self.entries@[i as int].1.view());
                }
                return false;
            }
            i += 1;
        }
        assert forall|k: Seq<char>| #[trigger] self.view().contains_key(k) implies self.view()[k].id <= PTR by {
            let j = choose|j: int| 0 <= j < self.entries@.len() && (#[trigger] self.entries@[j]).0@ == k;
            assert(self.view()[self.entries@[j].0@] == self.entries@[j].1.view());
        }
        true
    }

    /// The name and token of the `i`-th binding, in the order the names were first bound.
    pub fn entry(&self, i: usize) -> (r: (&String, &Token))
        requires
            i < self.view().len(),
        ensures
            self.view().contains_key(r.0@),
            self.view()[r.0@] == r.1.view(),
            r.0@ == self.names()[i as int],
    {
        proof {
            use_type_invariant(self);
            lemma_entries_view_len(self.entries@);
            lemma_entries_view_lookup(self.entries@);
        }
        (&self.entries[i].0, &self.entries[i].1)
    }
}

/// An association list without repeated names denotes a map with as many names.
pub proof fn lemma_entries_view_len(e: Seq<(String, Token)>)
    requires
        keys_unique(e),
    ensures
        entries_view(e).len() == e.len(),
        entries_view(e).dom().finite(),
    decreases e.len(),
{
    if e.len() > 0 {
        let p = e.drop_last();
        assert(keys_unique(p)) by {
            assert forall|a: int, b: int| 0 <= a < b < p.len() implies (#[trigger] p[a]).0@ != (#[trigger] p[b]).0@ by {
                assert(p[a] == e[a] && p[b] == e[b]);
            }
        }
        lemma_entries_view_len(p);
        lemma_entries_view_lookup(p);
        assert forall|j: int| 0 <= j < p.len() implies (#[trigger] p[j]).0@ != e.last().0@ by {
            assert(p[j] == e[j]);
        }
        assert(!entries_view(p).contains_key(e.last().0@));
    } else {
        assert(entries_view(e) =~= Map::<Seq<char>, TokenView>::empty());
    }
}

impl Token {
    pub open spec fn view(&self) -> TokenView
        decreases self,
    {
        TokenView {
            id: self.id,
            cid: self.cid,
            value: self.value@,
            dict: match self.dict {
                Some(d) => Some(d.view()),
                None => None,
            },
            list: match self.list {
                Some(l) => Some(views(l@)),
                None => None,
            },
            length: self.length,
            data_type: self.data_type,
            line: self.line,
            chara: self.chara,
            tt: self.tt,
        }
    }
}

/// The views of a sequence are the views of its elements.
pub broadcast proof fn lemma_views(s: Seq<Token>)
    ensures
        #[trigger] views(s).len() == s.len(),
        forall|i: int| 0 <= i < s.len() ==> #[trigger] views(s)[i] == s[i].view(),
    decreases s.len(),
{
    if s.len() > 0 {
        lemma_views(s.drop_last());
    }
}

/// Two association lists with the same keys and the same value views denote the same map.
pub proof fn lemma_entries_view_same(a: Seq<(String, Token)>, b: Seq<(String, Token)>)
    requires
        a.len() == b.len(),
        forall|i: int| 0 <= i < a.len() ==> #[trigger] a[i].0@ == b[i].0@ && a[i].1.view() == b[i].1.view(),
    ensures
        entries_view(a) == entries_view(b),
    decreases a.len(),
{
    if a.len() > 0 {
        lemma_entries_view_same(a.drop_last(), b.drop_last());
    }
}

/// Copies of a sequence of tokens, element by element.
pub(crate) fn copy_tokens(v: &Vec<Token>) -> (r: Vec<Token>)
    ensures
        views(r@) == views(v@),
        forall|i: int| 0 <= i < r.len() ==> !(#[trigger] r@[i]).escape,
    decreases v, 0nat,
{
    let mut r: Vec<Token> = Vec::new();
    let mut i: usize = 0;
    while i < v.len()
        invariant
            i <= v.len(),
            r.len() == i,
            forall|j: int| 0 <= j < i ==> (#[trigger] r@[j]).view() == v@[j].view() && !r@[j].escape,
        decreases v.len() - i,
    {
        proof {
            assert(decreases_to!(v => v@[i as int]));
        }
        let t = v[i].copy_token();
        r.push(t);
        i += 1;
    }
    proof {
        lemma_views(r@);
        lemma_views(v@);
        assert(views(r@) =~= views(v@));
    }
    r
}

impl TokenDict {
    /// A copy of the dictionary.
    fn copy_dict(&self) -> (r: TokenDict)
        ensures
            r.view() == self.view(),
        decreases self, 0nat,
    {
        let mut e: Vec<(String, Token)> = Vec::new();
        let mut i: usize = 0;
        while i < self.entries.len()
            invariant
                i <= self.entries.len(),
                e.len() == i,
                forall|j: int| 0 <= j < i ==> (#[trigger] e@[j]).0@ == self.entries@[j].0@
                    && e@[j].1.view() == self.entries@[j].1.view(),
            decreases self.entries.len() - i,
        {
            proof {
                assert(decreases_to!(self => self.entries@[i as int].1));
            }
            let k = self.entries[i].0.clone();
            let t = self.entries[i].1.copy_token();
            e.push((k, t));
            i += 1;
        }
        proof {
            use_type_invariant(self);
            lemma_entries_view_same(e@, self.entries@);
            assert(keys_unique(e@)) by {
                assert forall|a: int, b: int| 0 <= a < b < e@.len() implies (#[trigger] e@[a]).0@ != (#[trigger] e@[b]).0@ by {
                    assert(e@[a].0@ == self.entries@[a].0@);
                    assert(e@[b].0@ == self.entries@[b].0@);
                }
            }
        }
        TokenDict { entries: e }
    }
}

impl Token {
    /// A copy of the token, with the `escape` flag cleared.
    fn copy_token(&self) -> (r: Token)
        ensures
            r.view() == self.view(),
            !r.escape,
        decreases self, 1nat,
    {
        let dict = match &self.dict {
            Some(d) => Some(d.copy_dict()),
            None => None,
        };
        let list = match &self.list {
            Some(l) => Some(copy_tokens(l)),
            None => None,
        };
        Token {
            id: self.id,
            cid: self.cid,
            value: self.value.clone(),
            dict: dict,
            list: list,
            length: self.length,
            data_type: self.data_type,
            escape: false,
            line: self.line,
            chara: self.chara,
            tt: self.tt,
        }
    }
}

impl Clone for Token {
    /// A copy of the token; the copy's `escape` flag is cleared.
    fn clone(&self) -> (r: Token)
        ensures
            r.view() == self.view(),
            !r.escape,
    {
        self.copy_token()
    }
}

/// The value of `c` as a digit in base `base` (`char::to_digit`).
pub open spec fn radix_digit(c: char, base: nat) -> Option<nat> {
    if '0' <= c && c <= '9' && (c as int - '0' as int) < base {
        Some((c as int - '0' as int) as nat)
    } else if 'a' <= c && c <= 'z' && (c as int - 'a' as int + 10) < base {
        Some((c as int - 'a' as int + 10) as nat)
    } else if 'A' <= c && c <= 'Z' && (c as int - 'A' as int + 10) < base {
        Some((c as int - 'A' as int + 10) as nat)
    } else {
        None
    }
}

/// The value `as i32` gives to an unsigned 32-bit quantity.
pub open spec fn wrap_i32(x: int) -> int {
    if x > i32::MAX { x - 0x1_0000_0000 } else { x }
}

/// Reads the digits of `v` from its end back to the last `marker`, in base `base`, as
/// the literal conversion does with 32-bit arithmetic: `k` characters already read,
/// `n` the sum so far and `place` the weight of the next digit. `None` where the
/// arithmetic overflows or a character is not a digit.
pub open spec fn radix_fold(v: Seq<char>, marker: char, base: nat, k: nat, n: int, place: nat) -> Option<int>
    decreases v.len() - k,
{
    if k >= v.len() || v[v.len() - 1 - k] == marker {
        Some(n)
    } else {
        match radix_digit(v[v.len() - 1 - k], base) {
            None => None,
            Some(d) => {
                let prod = place * d;
                if prod > u32::MAX {
                    None
                } else {
                    let n2 = n + wrap_i32(prod as int);
                    if n2 < i32::MIN || n2 > i32::MAX || place * base > u32::MAX {
                        None
                    } else {
                        radix_fold(v, marker, base, k + 1, n2, place * base)
                    }
                }
            },
        }
    }
}

/// How a string literal's escape sequences are rewritten: `\n`, `\t` and `\x1b` become
/// the characters they name (unless escaped), then every `\\` becomes `\`.
pub open spec fn unescape(v: Seq<char>) -> Seq<char> {
    let bs = BACKSLASH_RE_PAT@;
    let a = replace_escaped(seq!['\\', 'n'], bs, v, seq!['\n']);
    let b = replace_escaped(seq!['\\', 't'], bs, a, seq!['\t']);
    let c = replace_escaped(seq!['\\', 'x', '1', 'b'], bs, b, seq!['\u{1b}']);
    replace_all(c, seq!['\\', '\\'], seq!['\\'])
}

/// What a number literal becomes when the decimal pattern does not match it: a binary
/// or hexadecimal literal is rewritten in decimal (kept as written where that reading
/// would overflow), anything else becomes `0`.
pub open spec fn converted_number(v: Seq<char>) -> Seq<char> {
    let r = if pattern_matches(TOKEN_BIN_NUM_RE_PAT@, v) {
        radix_fold(v, 'b', 2, 0, 0, 1)
    } else if pattern_matches(TOKEN_HEX_NUM_RE_PAT@, v) {
        radix_fold(v, 'x', 16, 0, 0, 1)
    } else {
        Some(0)
    };
    match r {
        Some(n) => int_decimal(n),
        None => v,
    }
}

/// The data type of a token with identifier `id` and text `value`, and the text it keeps.
pub open spec fn data_type_of(id: u8, value: Seq<char>) -> (u8, Seq<char>) {
    if id == LIT {
        if pattern_matches(TOKEN_STR_RE_PAT@, value) {
            (DT_STR, unescape(value))
        } else if pattern_matches(NUMBER_RE_PAT@, value) {
            if !pattern_matches(TOKEN_DEC_NUM_RE_PAT@, value) {
                (DT_NUM, converted_number(value))
            } else {
                (DT_NUM, value)
            }
        } else if pattern_matches(LITERAL_RE_PAT@, value) {
            (DT_BOL, value)
        } else {
            (DT_UDF, value)
        }
    } else if id == LST {
        (DT_LST, value)
    } else if id == DCT {
        (DT_DCT, value)
    } else if id == OBJ {
        (DT_OBJ, value)
    } else if id == MOD {
        (DT_MOD, value)
    } else {
        (DT_UDF, value)
    }
}

/// Whether a token has the container its kind promises.
pub open spec fn containers_present(t: Token) -> bool {
    &&& t.tt == LIST_TOKEN ==> t.list is Some
    &&& t.tt == DICT_TOKEN ==> t.dict is Some
}

/// The text `"invalid operation"`.
pub open spec fn msg_invalid_operation() -> Seq<char> {
    "invalid operation"@
}

/// The text `"index out of range"`.
pub open spec fn msg_out_of_range() -> Seq<char> {
    "index out of range"@
}

/// The text `"can't remove from empty list"`.
pub open spec fn msg_empty_list() -> Seq<char> {
    "can't remove from empty list"@
}

/// The text `"invalid key "` followed by the key.
pub open spec fn msg_invalid_key(key: Seq<char>) -> Seq<char> {
    "invalid key "@ + key
}

/// A number's text without its leading sign, if any.
pub open spec fn unsigned_part(s: Seq<char>) -> Seq<char> {
    if s.len() > 0 && (s[0] == '-' || s[0] == '+') { s.skip(1) } else { s }
}

/// Whether `s` is a plain decimal number as `f64` parsing reads it: an optional sign,
/// digits with at most one point among them, at least one digit, at most 300 digits
/// after the point.
pub open spec fn plain_decimal(s: Seq<char>) -> bool {
    &&& forall|i: int| 0 <= i < unsigned_part(s).len() ==> (crate::decimal::is_digit(#[trigger] unsigned_part(s)[i]) || unsigned_part(s)[i] == '.')
    &&& forall|i: int, j: int| 0 <= i < j < unsigned_part(s).len() ==> !(#[trigger] unsigned_part(s)[i] == '.' && #[trigger] unsigned_part(s)[j] == '.')
    &&& exists|i: int| 0 <= i < unsigned_part(s).len() && crate::decimal::is_digit(#[trigger] unsigned_part(s)[i])
    &&& forall|i: int| 0 <= i < unsigned_part(s).len() && #[trigger] unsigned_part(s)[i] == '.' ==> unsigned_part(s).len() - i - 1 <= 300
}

/// Whether a plain decimal number is greater than zero.
pub open spec fn decimal_positive(s: Seq<char>) -> bool {
    &&& !(s.len() > 0 && s[0] == '-')
    &&& exists|i: int| 0 <= i < unsigned_part(s).len() && #[trigger] unsigned_part(s)[i] != '0' && unsigned_part(s)[i] != '.'
}

/// The truth of a token as conditions read it.
pub open spec fn truth(t: Token) -> bool {
    if t.data_type == DT_STR {
        (encode_utf8(t.value@).len() as usize) > 2
    } else if t.data_type == DT_NUM {
        decimal_positive(t.value@)
    } else if t.data_type == DT_BOL {
        t.value@ == "true"@
    } else if t.data_type == UDF {
        false
    } else if t.data_type == DT_LST {
        t.list.unwrap().len() > 0
    } else {
        false
    }
}

/// Reads a binary or hexadecimal literal as the conversion does.
fn radix_convert(v: &Vec<char>, marker: char, base: u32) -> (r: Option<i32>)
    requires
        base == 2 || base == 16,
    ensures
        match r {
            Some(n) => radix_fold(v@, marker, base as nat, 0, 0, 1) == Some(n as int),
            None => radix_fold(v@, marker, base as nat, 0, 0, 1) is None,
        },
{
    let mut n: i32 = 0;
    let mut place: u32 = 1;
    let mut k: usize = 0;
    while k < v.len()
        invariant
            base == 2 || base == 16,
            k <= v.len(),
            radix_fold(v@, marker, base as nat, 0, 0, 1) == radix_fold(v@, marker, base as nat, k as nat, n as int, place as nat),
        decreases v.len() - k,
    {
        let c = v[v.len() - 1 - k];
        if c == marker {
            return Some(n);
        }
        let d: u32 = if '0' <= c && c <= '9' && (c as u32 - '0' as u32) < base {
            c as u32 - '0' as u32
        } else if 'a' <= c && c <= 'z' && (c as u32 - 'a' as u32 + 10) < base {
            c as u32 - 'a' as u32 + 10
        } else if 'A' <= c && c <= 'Z' && (c as u32 - 'A' as u32 + 10) < base {
            c as u32 - 'A' as u32 + 10
        } else {
            return None;
        };
        if d != 0 && place > u32::MAX / d {
            assert(place * d > u32::MAX) by (nonlinear_arith) requires d != 0, place > u32::MAX / d, d <= 35;
            return None;
        }
        assert(place * d <= u32::MAX) by (nonlinear_arith) requires d == 0 || place <= u32::MAX / d;
        let prod: u32 = place * d;
        let add: i64 = if prod > 2147483647 { prod as i64 - 4294967296 } else { prod as i64 };
        let n2: i64 = n as i64 + add;
        if n2 < -2147483648 || n2 > 2147483647 {
            return None;
        }
        if place > u32::MAX / base {
            assert(place * base > u32::MAX) by (nonlinear_arith) requires base > 0, place > u32::MAX / base;
            return None;
        }
        assert(place * base <= u32::MAX) by (nonlinear_arith) requires base > 0, place <= u32::MAX / base;
        n = n2 as i32;
        place = place * base;
        k += 1;
    }
    Some(n)
}

/// Whether `value` holds a match of the regular expression `pat`.
fn value_matches(pat: &str, value: &String) -> (b: bool)
    ensures
        b == pattern_matches(pat@, value@),
{
    pattern_found(pat, value.as_str())
}

impl Token {
    /// The data type of a token with identifier `id` and text `value`, and the text it keeps
    /// (string literals get their escape sequences rewritten, binary and hexadecimal
    /// literals may be rewritten in decimal).
    pub fn calc_dt(id: u8, value: String) -> (r: (u8, String))
        ensures
            r.0 == data_type_of(id, value@).0,
            r.1@ == data_type_of(id, value@).1,
    {
        if id == LIT {
            if value_matches(TOKEN_STR_RE_PAT, &value) {
                let rep = Replacer::new();
                let p1 = string_of(&vec!['\\', 'n']);
                let r1 = string_of(&vec!['\n']);
                let p2 = string_of(&vec!['\\', 't']);
                let r2 = string_of(&vec!['\t']);
                let p3 = string_of(&vec!['\\', 'x', '1', 'b']);
                let r3 = string_of(&vec!['\u{1b}']);
                let a = rep.replace(p1.as_str(), rep.BACKSLASH.as_str(), value, r1.as_str());
                let b = rep.replace(p2.as_str(), rep.BACKSLASH.as_str(), a, r2.as_str());
                let c = rep.replace(p3.as_str(), rep.BACKSLASH.as_str(), b, r3.as_str());
                let cv = chars_of(c.as_str());
                let two = vec!['\\', '\\'];
                let one = vec!['\\'];
                assert(p1@ =~= seq!['\\', 'n']);
                assert(r1@ =~= seq!['\n']);
                assert(p2@ =~= seq!['\\', 't']);
                assert(r2@ =~= seq!['\t']);
                assert(p3@ =~= seq!['\\', 'x', '1', 'b']);
                assert(r3@ =~= seq!['\u{1b}']);
                assert(two@ =~= seq!['\\', '\\']);
                assert(one@ =~= seq!['\\']);
                let d = replace_all_chars(&cv, &two, &one);
                return (DT_STR, string_of(&d));
            } else if value_matches(NUMBER_RE_PAT, &value) {
                if !value_matches(TOKEN_DEC_NUM_RE_PAT, &value) {
                    let v = chars_of(value.as_str());
                    let conv = if value_matches(TOKEN_BIN_NUM_RE_PAT, &value) {
                        radix_convert(&v, 'b', 2)
                    } else if value_matches(TOKEN_HEX_NUM_RE_PAT, &value) {
                        radix_convert(&v, 'x', 16)
                    } else {
                        Some(0i32)
                    };
                    return match conv {
                        Some(n) => (DT_NUM, i64_to_string(n as i64)),
                        None => (DT_NUM, value),
                    };
                }
                return (DT_NUM, value);
            } else if value_matches(LITERAL_RE_PAT, &value) {
                return (DT_BOL, value);
            }
        } else if id == LST {
            return (DT_LST, value);
        } else if id == DCT {
            return (DT_DCT, value);
        } else if id == OBJ {
            return (DT_OBJ, value);
        } else if id == MOD {
            return (DT_MOD, value);
        }
        (DT_UDF, value)
    }

    /// A token of kind `id` holding `value`; `tt` says whether it carries nothing
    /// (`BASE_TOKEN`), an empty dictionary (`DICT_TOKEN`) or an empty list (`LIST_TOKEN`).
    /// Its data type and kept text come from `calc_dt`.
    pub fn new(id: u8, value: String, tt: u8) -> (r: Token)
        requires
            tt == BASE_TOKEN || tt == DICT_TOKEN || tt == LIST_TOKEN,
        ensures
            r.id == id,
            r.cid == id,
            r.value@ == data_type_of(id, value@).1,
            r.data_type == data_type_of(id, value@).0,
            r.tt == tt,
            r.length == 0,
            !r.escape,
            r.line == 0,
            r.chara == 0,
            tt == BASE_TOKEN ==> r.dict is None && r.list is None,
            tt == DICT_TOKEN ==> r.list is None && r.dict is Some && r.dict.unwrap().view() == Map::<Seq<char>, TokenView>::empty(),
            tt == LIST_TOKEN ==> r.dict is None && r.list is Some && r.list.unwrap()@.len() == 0,
            containers_present(r),
    {
        let x = Token::calc_dt(id, value);
        let data_type = x.0;
        let value = x.1;
        let dict = if tt == DICT_TOKEN { Some(TokenDict::new()) } else { None };
        let list = if tt == LIST_TOKEN { Some(Vec::new()) } else { None };
        Token {
            id: id,
            cid: id,
            value: value,
            dict: dict,
            list: list,
            length: 0,
            data_type: data_type,
            escape: false,
            line: 0,
            chara: 0,
            tt: tt,
        }
    }

    /// A pointer token: its identifier is `PTR`, it holds `value`, and its data type is
    /// the one a `cid` token holding `rv` would have.
    pub fn new_ptr(cid: u8, value: String, rv: String) -> (r: Token)
        ensures
            r.id == PTR,
            r.cid == cid,
            r.value@ == value@,
            r.data_type == data_type_of(cid, rv@).0,
            r.tt == BASE_TOKEN,
            r.dict is None && r.list is None,
            r.length == 0 && !r.escape && r.line == 0 && r.chara == 0,
    {
        let x = Token::calc_dt(cid, rv);
        Token {
            id: PTR,
            cid: cid,
            value: value,
            dict: None,
            list: None,
            length: 0,
            data_type: x.0,
            escape: false,
            line: 0,
            chara: 0,
            tt: BASE_TOKEN,
        }
    }

    /// `Token::new` with the text given as a string slice.
    pub fn news(id: u8, value: &str, tt: u8) -> (r: Token)
        requires
            tt == BASE_TOKEN || tt == DICT_TOKEN || tt == LIST_TOKEN,
        ensures
            r.id == id,
            r.cid == id,
            r.value@ == data_type_of(id, value@).1,
            r.data_type == data_type_of(id, value@).0,
            r.tt == tt,
            r.length == 0,
            !r.escape,
            r.line == 0,
            r.chara == 0,
            tt == BASE_TOKEN ==> r.dict is None && r.list is None,
            tt == DICT_TOKEN ==> r.list is None && r.dict is Some && r.dict.unwrap().view() == Map::<Seq<char>, TokenView>::empty(),
            tt == LIST_TOKEN ==> r.dict is None && r.list is Some && r.list.unwrap()@.len() == 0,
            containers_present(r),
    {
        Token::new(id, copy_str(value), tt)
    }

    /// A base token of kind `id` holding `value`.
    pub fn newsb(id: u8, value: &str) -> (r: Token)
        ensures
            r.id == id,
            r.cid == id,
            r.value@ == data_type_of(id, value@).1,
            r.data_type == data_type_of(id, value@).0,
            r.tt == BASE_TOKEN,
            r.length == 0,
            !r.escape,
            r.line == 0,
            r.chara == 0,
            r.dict is None && r.list is None,
    {
        Token::new(id, copy_str(value), BASE_TOKEN)
    }

    /// Which container the token carries.
    pub fn tt(&self) -> (r: u8)
        ensures
            r == self.tt,
    {
        self.tt
    }

    /// Records where the token stands in the source.
    pub fn meta(&mut self, line: usize, chara: usize)
        ensures
            final(self).line == line,
            final(self).chara == chara,
            final(self).view() == (TokenView { line: line, chara: chara, ..old(self).view() }),
            final(self).escape == old(self).escape,
    {
        self.line = line;
        self.chara = chara;
    }

    /// The truth of the token: a string is true when it holds more than its two quotes
    /// (counted in bytes), a number when it is greater than zero, a boolean when it is
    /// `true`, a list when it is not empty; anything else is false.
    pub fn bool(&self) -> (r: bool)
        requires
            self.data_type == DT_NUM ==> plain_decimal(self.value@),
            self.data_type == DT_LST ==> self.list is Some,
        ensures
            r == truth(*self),
    {
        if self.data_type == DT_STR {
            return self.value.as_str().len() > 2;
        }
        if self.data_type == DT_NUM {
            return number_positive(self.value.as_str());
        }
        if self.data_type == DT_BOL {
            return str_eq(self.value.as_str(), "true");
        }
        if self.data_type == UDF {
            return false;
        }
        if self.data_type == DT_LST {
            return match &self.list {
                Some(l) => l.len() > 0,
                None => false,
            };
        }
        false
    }

    /// Whether the token has identifier `id` and text `value`.
    pub fn matchupb(&self, id: u8, value: String) -> (r: bool)
        ensures
            r == (self.id == id && self.value@ == value@),
    {
        self.id == id && str_eq(self.value.as_str(), value.as_str())
    }

    /// Whether the token has identifier `id` and text `value`.
    pub fn matchup(&self, id: u8, value: &str) -> (r: bool)
        ensures
            r == (self.id == id && self.value@ == value@),
    {
        self.id == id && str_eq(self.value.as_str(), value)
    }
}

/// Whether `r` is an error with message `m`.
pub open spec fn is_err_with<T>(r: Result<T, String>, m: Seq<char>) -> bool {
    match r {
        Err(e) => e@ == m,
        Ok(_) => false,
    }
}

/// The list of a list token's view.
pub open spec fn list_of(t: TokenView) -> Seq<TokenView> {
    t.list.unwrap()
}

/// The dictionary of a dictionary token's view.
pub open spec fn dict_of(t: TokenView) -> Map<Seq<char>, TokenView> {
    t.dict.unwrap()
}

// list methods
impl Token {
    /// A copy of the element at `key`. Fails on a token without a list, and when `key`
    /// is not below the recorded length.
    pub fn get(&self, key: usize) -> (r: Result<Token, String>)
        requires
            containers_present(*self),
            self.tt == LIST_TOKEN && key < self.length ==> key < self.list.unwrap().len(),
        ensures
            self.tt != LIST_TOKEN ==> is_err_with(r, msg_invalid_operation()),
            self.tt == LIST_TOKEN && self.length <= key ==> is_err_with(r, msg_out_of_range()),
            self.tt == LIST_TOKEN && key < self.length ==> r is Ok && r.unwrap().view() == list_of(self.view())[key as int],
    {
        if self.tt != LIST_TOKEN {
            return Err("invalid operation".to_owned());
        }
        if self.length <= key {
            return Err("index out of range".to_owned());
        }
        proof {
            lemma_views(self.list.unwrap()@);
        }
        match &self.list {
            Some(l) => Ok(l[key].clone()),
            None => Err("invalid operation".to_owned()),
        }
    }

    /// Replaces the element at `key`. Fails, changing nothing, on a token without a
    /// list and when `key` is not below the recorded length.
    pub fn set(&mut self, key: usize, value: Token) -> (r: Result<(), String>)
        requires
            containers_present(*old(self)),
            old(self).tt == LIST_TOKEN && key < old(self).length ==> key < old(self).list.unwrap().len(),
        ensures
            old(self).tt != LIST_TOKEN ==> is_err_with(r, msg_invalid_operation()),
            old(self).tt == LIST_TOKEN && old(self).length <= key ==> is_err_with(r, msg_out_of_range()),
            r is Err ==> *final(self) == *old(self),
            old(self).tt == LIST_TOKEN && key < old(self).length ==> r is Ok && final(self).view() == (TokenView {
                list: Some(list_of(old(self).view()).update(key as int, value.view())),
                ..old(self).view()
            }),
            final(self).escape == old(self).escape,
            containers_present(*final(self)),
    {
        if self.tt != LIST_TOKEN {
            return Err("invalid operation".to_owned());
        }
        if self.length <= key {
            return Err("index out of range".to_owned());
        }
        let ghost vv = value.view();
        let ghost ol = self.list.unwrap()@;
        match &mut self.list {
            Some(l) => {
                l.set(key, value);
            },
            None => {},
        }
        proof {
            let nl = self.list.unwrap()@;
            lemma_views(nl);
            lemma_views(ol);
            assert(views(nl) =~= views(ol).update(key as int, vv));
        }
        Ok(())
    }

    /// Appends `v` to the list and counts it in the recorded length.
    pub fn push(&mut self, v: Token) -> (r: Result<(), String>)
        requires
            containers_present(*old(self)),
            old(self).tt == LIST_TOKEN ==> old(self).length < usize::MAX,
        ensures
            old(self).tt != LIST_TOKEN ==> is_err_with(r, msg_invalid_operation()) && *final(self) == *old(self),
            old(self).tt == LIST_TOKEN ==> r is Ok && final(self).view() == (TokenView {
                length: (old(self).length + 1) as usize,
                list: Some(list_of(old(self).view()).push(v.view())),
                ..old(self).view()
            }),
            final(self).escape == old(self).escape,
            containers_present(*final(self)),
    {
        if self.tt != LIST_TOKEN {
            return Err("invalid operation".to_owned());
        }
        self.length += 1;
        let ghost vv = v.view();
        let ghost ol = self.list.unwrap()@;
        match &mut self.list {
            Some(l) => {
                l.push(v);
            },
            None => {},
        }
        proof {
            let nl = self.list.unwrap()@;
            lemma_views(nl);
            lemma_views(ol);
            assert(views(nl) =~= views(ol).push(vv));
        }
        Ok(())
    }

    /// Takes the last element off the list. Fails, changing nothing, on a token without
    /// a list and when the recorded length is zero.
    pub fn pop(&mut self) -> (r: Result<Token, String>)
        requires
            containers_present(*old(self)),
            old(self).tt == LIST_TOKEN && old(self).length > 0 ==> old(self).list.unwrap().len() > 0,
        ensures
            old(self).tt != LIST_TOKEN ==> is_err_with(r, msg_invalid_operation()),
            old(self).tt == LIST_TOKEN && old(self).length == 0 ==> is_err_with(r, msg_empty_list()),
            r is Err ==> *final(self) == *old(self),
            old(self).tt == LIST_TOKEN && old(self).length > 0 ==> r is Ok
                && r.unwrap().view() == list_of(old(self).view()).last()
                && final(self).view() == (TokenView {
                    length: (old(self).length - 1) as usize,
                    list: Some(list_of(old(self).view()).drop_last()),
                    ..old(self).view()
                }),
            final(self).escape == old(self).escape,
            containers_present(*final(self)),
    {
        if self.tt != LIST_TOKEN {
            return Err("invalid operation".to_owned());
        }
        if self.length == 0 {
            return Err("can't remove from empty list".to_owned());
        }
        self.length -= 1;
        let ghost ol = self.list.unwrap()@;
        proof {
            lemma_views(ol);
        }
        let popped = match &mut self.list {
            Some(l) => l.pop(),
            None => None,
        };
        proof {
            let nl = self.list.unwrap()@;
            lemma_views(nl);
            assert(views(nl) =~= views(ol).drop_last());
        }
        match popped {
            Some(t) => Ok(t),
            None => Err("can't remove from empty list".to_owned()),
        }
    }

    /// Takes the element at `key` out of the list. Fails, changing nothing, on a token
    /// without a list and when `key` is not below the recorded length.
    pub fn popitem(&mut self, key: usize) -> (r: Result<Token, String>)
        requires
            containers_present(*old(self)),
            old(self).tt == LIST_TOKEN && key < old(self).length ==> key < old(self).list.unwrap().len(),
        ensures
            old(self).tt != LIST_TOKEN ==> is_err_with(r, msg_invalid_operation()),
            old(self).tt == LIST_TOKEN && old(self).length <= key ==> is_err_with(r, msg_out_of_range()),
            r is Err ==> *final(self) == *old(self),
            old(self).tt == LIST_TOKEN && key < old(self).length ==> r is Ok
                && r.unwrap().view() == list_of(old(self).view())[key as int]
                && final(self).view() == (TokenView {
                    length: (old(self).length - 1) as usize,
                    list: Some(list_of(old(self).view()).remove(key as int)),
                    ..old(self).view()
                }),
            final(self).escape == old(self).escape,
            containers_present(*final(self)),
    {
        if self.tt != LIST_TOKEN {
            return Err("invalid operation".to_owned());
        }
        if self.length <= key {
            return Err("index out of range".to_owned());
        }
        self.length -= 1;
        let ghost ol = self.list.unwrap()@;
        proof {
            lemma_views(ol);
        }
        let removed = match &mut self.list {
            Some(l) => Some(l.remove(key)),
            None => None,
        };
        proof {
            let nl = self.list.unwrap()@;
            lemma_views(nl);
            assert(views(nl) =~= views(ol).remove(key as int));
        }
        match removed {
            Some(t) => Ok(t),
            None => Err("index out of range".to_owned()),
        }
    }

    /// Appends the tokens of `v` to the list, counting each in the recorded length.
    pub fn extend(&mut self, v: Vec<Token>) -> (r: Result<(), String>)
        requires
            containers_present(*old(self)),
            old(self).tt == LIST_TOKEN ==> old(self).length + v.len() <= usize::MAX,
        ensures
            old(self).tt != LIST_TOKEN ==> is_err_with(r, msg_invalid_operation()) && *final(self) == *old(self),
            old(self).tt == LIST_TOKEN ==> r is Ok && final(self).view() == (TokenView {
                length: (old(self).length + v.len()) as usize,
                list: Some(list_of(old(self).view()) + views(v@)),
                ..old(self).view()
            }),
            final(self).escape == old(self).escape,
            containers_present(*final(self)),
    {
        if self.tt != LIST_TOKEN {
            return Err("invalid operation".to_owned());
        }
        let ghost ov = self.view();
        let ghost vs = views(v@);
        proof {
            lemma_views(v@);
        }
        let mut v = v;
        let mut taken: Vec<Token> = Vec::new();
        let n = v.len();
        let mut k: usize = 0;
        while k < n
            invariant
                k <= n,
                n == vs.len(),
                v.len() == n - k,
                forall|j: int| 0 <= j < v.len() ==> (#[trigger] v@[j]).view() == vs[k + j],
                self.tt == LIST_TOKEN,
                self.list is Some,
                self.length == ov.length + k,
                self.length + (n - k) <= usize::MAX,
                self.view() == (TokenView {
                    length: self.length,
                    list: Some(list_of(ov) + vs.take(k as int)),
                    ..ov
                }),
                self.escape == old(self).escape,
            decreases n - k,
        {
            let t = v.remove(0);
            assert(t.view() == vs[k as int]);
            self.length += 1;
            let ghost ol = self.list.unwrap()@;
            match &mut self.list {
                Some(l) => {
                    l.push(t);
                },
                None => {},
            }
            k += 1;
            proof {
                let nl = self.list.unwrap()@;
                lemma_views(nl);
                lemma_views(ol);
                assert(views(nl) =~= views(ol).push(vs[k - 1]));
                assert(vs.take(k as int) =~= vs.take(k - 1).push(vs[k - 1]));
            }
        }
        assert(vs.take(n as int) =~= vs);
        Ok(())
    }
}

// dict methods
impl Token {
    /// Whether the dictionary binds `key`. Fails on a token without a dictionary.
    pub fn hasd(&self, key: &str) -> (r: Result<bool, String>)
        requires
            containers_present(*self),
        ensures
            self.tt != DICT_TOKEN ==> is_err_with(r, msg_invalid_operation()),
            self.tt == DICT_TOKEN ==> r == Ok::<bool, String>(dict_of(self.view()).contains_key(key@)),
    {
        if self.tt != DICT_TOKEN {
            return Err("invalid operation".to_owned());
        }
        match &self.dict {
            Some(d) => Ok(d.contains_key(key)),
            None => Err("invalid operation".to_owned()),
        }
    }

    /// Checks that `key` may be read from the token's dictionary: fails on a token without
    /// a dictionary. A key the dictionary does not bind is not to be passed (reading it is
    /// a fault of the caller).
    pub fn _check_vkey_dict(&self, key: &str) -> (r: Result<(), String>)
        requires
            containers_present(*self),
            self.tt == DICT_TOKEN ==> dict_of(self.view()).contains_key(key@),
        ensures
            self.tt != DICT_TOKEN ==> is_err_with(r, msg_invalid_operation()),
            self.tt == DICT_TOKEN ==> r is Ok,
    {
        if self.tt != DICT_TOKEN {
            return Err("invalid operation".to_owned());
        }
        let found = match &self.dict {
            Some(d) => d.contains_key(key),
            None => false,
        };
        if !found {
            return Err(joined("invalid key ", key));
        }
        Ok(())
    }

    /// A copy of the token bound to `key`. Fails on a token without a dictionary, and
    /// when `key` is not bound.
    pub fn getd(&self, key: String) -> (r: Result<Token, String>)
        requires
            containers_present(*self),
        ensures
            self.tt != DICT_TOKEN ==> is_err_with(r, msg_invalid_operation()),
            self.tt == DICT_TOKEN && !dict_of(self.view()).contains_key(key@) ==> is_err_with(r, msg_invalid_key(key@)),
            self.tt == DICT_TOKEN && dict_of(self.view()).contains_key(key@) ==> r is Ok
                && r.unwrap().view() == dict_of(self.view())[key@],
    {
        if self.tt != DICT_TOKEN {
            return Err("invalid operation".to_owned());
        }
        match &self.dict {
            Some(d) => match d.get(key.as_str()) {
                Some(t) => Ok(t.clone()),
                None => Err(joined("invalid key ", key.as_str())),
            },
            None => Err("invalid operation".to_owned()),
        }
    }

    /// Binds `key` to `value` in the dictionary. Fails, changing nothing, on a token
    /// without a dictionary.
    pub fn setd(&mut self, key: String, value: Token) -> (r: Result<(), String>)
        requires
            containers_present(*old(self)),
        ensures
            old(self).tt != DICT_TOKEN ==> is_err_with(r, msg_invalid_operation()) && *final(self) == *old(self),
            old(self).tt == DICT_TOKEN ==> r is Ok && final(self).view() == (TokenView {
                dict: Some(dict_of(old(self).view()).insert(key@, value.view())),
                ..old(self).view()
            }),
            final(self).escape == old(self).escape,
            containers_present(*final(self)),
    {
        if self.tt != DICT_TOKEN {
            return Err("invalid operation".to_owned());
        }
        match &mut self.dict {
            Some(d) => {
                d.insert(key, value);
            },
            None => {},
        }
        Ok(())
    }

    /// Unbinds `key`, giving back its token. Fails, changing nothing, on a token without
    /// a dictionary and when `key` is not bound.
    pub fn popd(&mut self, key: String) -> (r: Result<Token, String>)
        requires
            containers_present(*old(self)),
        ensures
            old(self).tt != DICT_TOKEN ==> is_err_with(r, msg_invalid_operation()),
            old(self).tt == DICT_TOKEN && !dict_of(old(self).view()).contains_key(key@) ==> is_err_with(r, msg_invalid_key(key@)),
            r is Err ==> *final(self) == *old(self),
            old(self).tt == DICT_TOKEN && dict_of(old(self).view()).contains_key(key@) ==> r is Ok
                && r.unwrap().view() == dict_of(old(self).view())[key@]
                && final(self).view() == (TokenView {
                    dict: Some(dict_of(old(self).view()).remove(key@)),
                    ..old(self).view()
                }),
            final(self).escape == old(self).escape,
            containers_present(*final(self)),
    {
        if self.tt != DICT_TOKEN {
            return Err("invalid operation".to_owned());
        }
        let present = match &self.dict {
            Some(d) => d.contains_key(key.as_str()),
            None => false,
        };
        if !present {
            return Err(joined("invalid key ", key.as_str()));
        }
        let removed = match &mut self.dict {
            Some(d) => d.remove(key.as_str()),
            None => None,
        };
        match removed {
            Some(t) => Ok(t),
            None => Err(joined("invalid key ", key.as_str())),
        }
    }
}

impl PartialEq for Token {
    /// Two tokens are equal when their identifiers, texts and data types are.
    fn eq(&self, other: &Token) -> (r: bool) {
        other.id == self.id && str_eq(other.value.as_str(), self.value.as_str()) && other.data_type == self.data_type
    }
}

impl vstd::std_specs::cmp::PartialEqSpecImpl for Token {
    open spec fn obeys_eq_spec() -> bool {
        true
    }

    open spec fn eq_spec(&self, other: &Token) -> bool {
        other.id == self.id && other.value@ == self.value@ && other.data_type == self.data_type
    }
}

/// The name of a token identifier.
pub open spec fn token_name(id: u8) -> Seq<char> {
    if id == NUL { "NUL"@ } else if id == FUN { "FUN"@ } else if id == REF { "REF"@ }
    else if id == LIT { "LIT"@ } else if id == IDX { "IDX"@ } else if id == KEY { "KEY"@ }
    else if id == MAT { "MAT"@ } else if id == LOG { "LOG"@ } else if id == ASS { "ASS"@ }
    else if id == PAR { "PAR"@ } else if id == LST { "LST"@ } else if id == DCT { "DCT"@ }
    else if id == OBJ { "OBJ"@ } else if id == SEP { "SEP"@ } else if id == SYM { "SYM"@ }
    else if id == GRP { "GRP"@ } else if id == DOT { "DOT"@ } else if id == CTL { "CTL"@ }
    else if id == NLN { "NLN"@ } else if id == UDF { "UDF"@ } else if id == MET { "MET"@ }
    else if id == SIG { "SIG"@ } else if id == BND { "BND"@ } else if id == MOD { "MOD"@ }
    else if id == PTH { "PTH"@ } else { "PTR"@ }
}

/// The name of a token identifier (the table `TOKEN_ARRAY`); identifiers go up to `PTR`.
pub fn token_array(id: u8) -> (r: &'static str)
    requires
        id <= PTR,
    ensures
        r@ == token_name(id),
{
    if id == NUL { "NUL" } else if id == FUN { "FUN" } else if id == REF { "REF" }
    else if id == LIT { "LIT" } else if id == IDX { "IDX" } else if id == KEY { "KEY" }
    else if id == MAT { "MAT" } else if id == LOG { "LOG" } else if id == ASS { "ASS" }
    else if id == PAR { "PAR" } else if id == LST { "LST" } else if id == DCT { "DCT" }
    else if id == OBJ { "OBJ" } else if id == SEP { "SEP" } else if id == SYM { "SYM" }
    else if id == GRP { "GRP" } else if id == DOT { "DOT" } else if id == CTL { "CTL" }
    else if id == NLN { "NLN" } else if id == UDF { "UDF" } else if id == MET { "MET" }
    else if id == SIG { "SIG" } else if id == BND { "BND" } else if id == MOD { "MOD" }
    else if id == PTH { "PTH" } else { "PTR" }
}

/// A token's text with the escape character, newlines and tabs written as `\x1b`, `\n`, `\t`.
pub open spec fn shown_value(v: Seq<char>) -> Seq<char> {
    replace_all(replace_all(replace_all(v, seq!['\u{1b}'], seq!['\\', 'x', '1', 'b']), seq!['\n'], seq!['\\', 'n']), seq!['\t'], seq!['\\', 't'])
}

/// How a token is displayed: `(NAME, "text")`.
pub open spec fn displayed(t: TokenView) -> Seq<char> {
    seq!['('] + token_name(t.id) + seq![',', ' ', '"'] + shown_value(t.value) + seq!['"', ')']
}

impl Token {
    /// The token's text as it is shown, with control characters written as escapes.
    pub fn shown(&self) -> (r: String)
        ensures
            r@ == shown_value(self.value@),
    {
        let v = chars_of(self.value.as_str());
        let esc = vec!['\u{1b}'];
        let esc_w = vec!['\\', 'x', '1', 'b'];
        let nl = vec!['\n'];
        let nl_w = vec!['\\', 'n'];
        let tab = vec!['\t'];
        let tab_w = vec!['\\', 't'];
        assert(esc@ =~= seq!['\u{1b}']);
        assert(esc_w@ =~= seq!['\\', 'x', '1', 'b']);
        assert(nl@ =~= seq!['\n']);
        assert(nl_w@ =~= seq!['\\', 'n']);
        assert(tab@ =~= seq!['\t']);
        assert(tab_w@ =~= seq!['\\', 't']);
        let a = replace_all_chars(&v, &esc, &esc_w);
        let b = replace_all_chars(&a, &nl, &nl_w);
        let c = replace_all_chars(&b, &tab, &tab_w);
        string_of(&c)
    }

    /// The token displayed as `(NAME, "text")`, the name taken from the identifier.
    pub fn display(&self) -> (r: String)
        requires
            self.id <= PTR,
        ensures
            r@ == displayed(self.view()),
    {
        let mut v: Vec<char> = Vec::new();
        v.push('(');
        let name = chars_of(token_array(self.id));
        let mut v = append_chars(v, &name);
        v.push(',');
        v.push(' ');
        v.push('"');
        let sh = self.shown();
        let shc = chars_of(sh.as_str());
        let mut v = append_chars(v, &shc);
        v.push('"');
        v.push(')');
        assert(v@ =~= displayed(self.view()));
        string_of(&v)
    }
}

/// `v` followed by the characters of `w`.
pub fn append_chars(v: Vec<char>, w: &Vec<char>) -> (r: Vec<char>)
    ensures
        r@ == v@ + w@,
{
    let mut v = v;
    let n = w.len();
    crate::replacer::push_range(&mut v, w, 0, n);
    assert(w@.subrange(0, n as int) =~= w@);
    v
}

/// Whether a plain decimal number is greater than zero.
fn number_positive(s: &str) -> (r: bool)
    ensures
        r == decimal_positive(s@),
{
    let v = chars_of(s);
    let neg = v.len() > 0 && v[0] == '-';
    let from: usize = if v.len() > 0 && (v[0] == '-' || v[0] == '+') { 1 } else { 0 };
    let ghost body = unsigned_part(s@);
    let mut i = from;
    let mut found = false;
    while i < v.len()
        invariant
            from <= i <= v.len(),
            v@ == s@,
            body == v@.skip(from as int),
            found == exists|j: int| 0 <= j < i - from && #[trigger] body[j] != '0' && body[j] != '.',
        decreases v.len() - i,
    {
        if v[i] != '0' && v[i] != '.' {
            assert(body[i - from] == v@[i as int]);
            found = true;
        } else {
            assert forall|j: int| 0 <= j < i + 1 - from && #[trigger] body[j] != '0' && body[j] != '.' implies j < i - from by {
                if j == i - from {
                    assert(body[j] == v@[i as int]);
                }
            }
        }
        i += 1;
    }
    proof {
        if from == 0 {
            assert(v@.skip(0) =~= v@);
        }
        assert(body.len() == v.len() - from);
        if found {
            let j = choose|j: int| 0 <= j < i - from && #[trigger] body[j] != '0' && body[j] != '.';
            assert(0 <= j < body.len() && body[j] != '0' && body[j] != '.');
        }
        assert(found == exists|j: int| 0 <= j < body.len() && #[trigger] body[j] != '0' && body[j] != '.');
        assert(neg == (s@.len() > 0 && s@[0] == '-'));
    }
    !neg && found
}

/// The text between the brackets of a printed list: each item as ` '<item>', `.
pub open spec fn items_text(items: Seq<Seq<char>>) -> Seq<char>
    decreases items.len(),
{
    if items.len() == 0 {
        Seq::empty()
    } else {
        items_text(items.drop_last()) + seq![' ', '\''] + items.last() + seq!['\'', ',', ' ']
    }
}

/// How a list is printed: `[ `, the items, ` ]`.
pub open spec fn list_text_of(items: Seq<Seq<char>>) -> Seq<char> {
    seq!['[', ' '] + items_text(items) + seq![' ', ']']
}

/// The line that prints a list whose items read as `items`.
pub fn list_text(items: &Vec<String>) -> (r: String)
    ensures
        r@ == list_text_of(items@.map_values(|s: String| s@)),
{
    let ghost iv = items@.map_values(|s: String| s@);
    let mut v: Vec<char> = vec!['[', ' '];
    let mut k: usize = 0;
    while k < items.len()
        invariant
            k <= items.len(),
            iv == items@.map_values(|s: String| s@),
            v@ == seq!['[', ' '] + items_text(iv.take(k as int)),
        decreases items.len() - k,
    {
        let mut w = chars_of(items[k].as_str());
        assert(iv.take(k + 1).drop_last() =~= iv.take(k as int));
        assert(iv.take(k + 1).last() == items@[k as int]@);
        v.push(' ');
        v.push('\'');
        v.append(&mut w);
        v.push('\'');
        v.push(',');
        v.push(' ');
        k += 1;
        assert(v@ =~= seq!['[', ' '] + items_text(iv.take(k as int)));
    }
    assert(iv.take(items.len() as int) =~= iv);
    v.push(' ');
    v.push(']');
    assert(v@ =~= list_text_of(iv));
    string_of(&v)
}

} // verus!
