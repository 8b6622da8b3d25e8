use vstd::prelude::*;
use crate::statics::{Token, DT_BOL, DT_UDF, DT_STR, DT_NUM, DT_LST, DT_DCT, DT_OBJ, dict_of};
use crate::names::NameMap;
use crate::text::copy_str;

verus! {

/// What the binding tables hold: for lists, dictionaries, strings and numbers, each
/// member name with whether it is a method (else a property).
pub ghost struct BindingsView {
    pub lists: Map<Seq<char>, bool>,
    pub dicts: Map<Seq<char>, bool>,
    pub strings: Map<Seq<char>, bool>,
    pub numbers: Map<Seq<char>, bool>,
}

/// The name of a member kind.
pub open spec fn kind_name(is_method: bool) -> Seq<char> {
    if is_method { "method"@ } else { "property"@ }
}

/// The members of lists: `push`, `pop`, `remove`, `get` (methods) and `length` (property).
pub open spec fn list_members() -> Map<Seq<char>, bool> {
    Map::empty()
        .insert("push"@, true)
        .insert("pop"@, true)
        .insert("remove"@, true)
        .insert("length"@, false)
        .insert("get"@, true)
}

/// The members of strings: `length` (property), `is_alpha` and `is_digit` (methods).
pub open spec fn string_members() -> Map<Seq<char>, bool> {
    Map::empty()
        .insert("length"@, false)
        .insert("is_alpha"@, true)
        .insert("is_digit"@, true)
}

/// The members of numbers: `to_string` (method).
pub open spec fn number_members() -> Map<Seq<char>, bool> {
    Map::empty().insert("to_string"@, true)
}

impl BindingsView {
    /// The table of data type `t`, if it has one.
    pub open spec fn table(self, t: u8) -> Option<Map<Seq<char>, bool>> {
        if t == DT_STR {
            Some(self.strings)
        } else if t == DT_NUM {
            Some(self.numbers)
        } else if t == DT_LST {
            Some(self.lists)
        } else if t == DT_DCT {
            Some(self.dicts)
        } else {
            None
        }
    }

    /// Whether values of data type `t` have a member `target`.
    pub open spec fn valid(self, t: u8, target: Seq<char>) -> bool {
        match self.table(t) {
            Some(m) => m.contains_key(target),
            None => false,
        }
    }

    /// The kind of member `target` of data type `t`; empty when there is none.
    pub open spec fn kind(self, t: u8, target: Seq<char>) -> Seq<char> {
        if self.valid(t, target) { kind_name(self.table(t).unwrap()[target]) } else { Seq::empty() }
    }
}

/// The members that the built-in data types offer to programs.
pub struct Bindings {
    lists: NameMap<bool>,
    dicts: NameMap<bool>,
    strings: NameMap<bool>,
    numbers: NameMap<bool>,
}

/// Puts each member of `names` into `m` with whether it is a method.
fn fill(m: &mut NameMap<bool>, names: &Vec<&'static str>, methods: &Vec<bool>)
    requires
        names.len() == methods.len(),
    ensures
        final(m).view() == fill_view(old(m).view(), names@, methods@, names.len() as int),
{
    let mut i: usize = 0;
    while i < names.len()
        invariant
            i <= names.len(),
            names.len() == methods.len(),
            m.view() == fill_view(old(m).view(), names@, methods@, i as int),
        decreases names.len() - i,
    {
        m.insert(copy_str(names[i]), methods[i]);
        i += 1;
    }
}

/// `m` with the first `n` members of `names` put in.
pub open spec fn fill_view(m: Map<Seq<char>, bool>, names: Seq<&'static str>, methods: Seq<bool>, n: int) -> Map<Seq<char>, bool>
    decreases n,
{
    if n <= 0 {
        m
    } else {
        fill_view(m, names, methods, n - 1).insert(names[n - 1]@, methods[n - 1])
    }
}

impl Bindings {
    pub closed spec fn view(&self) -> BindingsView {
        BindingsView {
            lists: self.lists.view(),
            dicts: self.dicts.view(),
            strings: self.strings.view(),
            numbers: self.numbers.view(),
        }
    }

    /// The tables of the built-in members.
    pub fn new() -> (r: Bindings)
        ensures
            r.view().lists == list_members(),
            r.view().dicts == Map::<Seq<char>, bool>::empty(),
            r.view().strings == string_members(),
            r.view().numbers == number_members(),
    {
        let mut ld: NameMap<bool> = NameMap::new();
        let mut sd: NameMap<bool> = NameMap::new();
        let mut nd: NameMap<bool> = NameMap::new();
        let dd: NameMap<bool> = NameMap::new();
        fill(&mut ld, &vec!["push", "pop", "remove", "length", "get"], &vec![true, true, true, false, true]);
        fill(&mut sd, &vec!["length", "is_alpha", "is_digit"], &vec![false, true, true]);
        fill(&mut nd, &vec!["to_string"], &vec![true]);
        let r = Bindings { lists: ld, dicts: dd, strings: sd, numbers: nd };
        proof {
            reveal_with_fuel(fill_view, 6);
        }
        assert(r.view().lists =~= list_members());
        assert(r.view().strings =~= string_members());
        assert(r.view().numbers =~= number_members());
        r
    }

    /// Whether values of data type `t` have a member `target`.
    pub fn validate(&self, t: u8, target: &str) -> (r: bool)
        ensures
            r == self.view().valid(t, target@),
    {
        if t == DT_BOL || t == DT_UDF {
            return false;
        }
        if t == DT_STR {
            return self.strings.contains_key(target);
        }
        if t == DT_NUM {
            return self.numbers.contains_key(target);
        }
        if t == DT_LST {
            return self.lists.contains_key(target);
        }
        if t == DT_DCT {
            return self.dicts.contains_key(target);
        }
        false
    }

    /// The kind (`method` or `property`) of member `t` of data type `i`; empty when
    /// there is no such member.
    pub fn get_type(&self, i: u8, t: &str) -> (r: String)
        ensures
            r@ == self.view().kind(i, t@),
    {
        if !self.validate(i, t) {
            return String::new();
        }
        let found = if i == DT_STR {
            self.strings.get(t)
        } else if i == DT_LST {
            self.lists.get(t)
        } else if i == DT_DCT {
            self.dicts.get(t)
        } else {
            self.numbers.get(t)
        };
        match found {
            Some(k) => if *k { "method".to_owned() } else { "property".to_owned() },
            None => String::new(),
        }
    }

    /// Whether `target` names a member of `t`: for an object, a name its dictionary
    /// binds; otherwise a member of its data type.
    pub fn check_valid(&self, t: &Token, target: &str) -> (r: bool)
        requires
            t.data_type == DT_OBJ ==> t.dict is Some,
        ensures
            t.data_type == DT_OBJ ==> r == dict_of(t.view()).contains_key(target@),
            t.data_type != DT_OBJ ==> r == self.view().valid(t.data_type, target@),
    {
        if t.data_type == DT_OBJ {
            return match &t.dict {
                Some(d) => d.contains_key(target),
                None => false,
            };
        }
        self.validate(t.data_type, target)
    }
}

} // verus!
