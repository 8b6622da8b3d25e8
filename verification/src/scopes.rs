use vstd::prelude::*;
use crate::statics::{Token, TokenDict, TokenView, UDF, DT_UDF, BASE_TOKEN, PTR, data_type_of, displayed};
use crate::decimal::{int_decimal, nat_digits, u64_digits};
use crate::text::{string_of, chars_of};
use crate::statics::append_chars;
use crate::names::NameMap;
use crate::text::copy_str;

verus! {

/// What a stack of variable scopes holds: for each scope its variables and its
/// variable flags (innermost scope last), the protection flags of names, and the
/// interface flags of names.
///
/// Variable flags: 0 (local, the default) reads and writes from the innermost scope
/// that holds the name; 1 reads that way and writes from the outermost; 2 reads from
/// the outermost and writes from the innermost; 3 (global) reads and writes from the
/// outermost; 4 (unique) is read and written in the innermost scope only; 5 (parent)
/// goes up exactly one level: it is read and written in the scope just below the
/// innermost one (and reads as undefined where there is none). A protection flag
/// of 1 makes a name read from the outermost scope and never written.
pub ghost struct ScopesView {
    pub scopes: Seq<Map<Seq<char>, TokenView>>,
    pub flags: Seq<Map<Seq<char>, u8>>,
    pub protection: Map<Seq<char>, u8>,
    pub inter: Map<Seq<char>, u8>,
}

/// The view of the undefined token `UDF`.
pub open spec fn udf_view() -> TokenView {
    TokenView {
        id: UDF,
        cid: UDF,
        value: "UDF"@,
        dict: None,
        list: None,
        length: 0,
        data_type: DT_UDF,
        line: 0,
        chara: 0,
        tt: BASE_TOKEN,
    }
}

/// The flag `m` gives `name`, 0 when it gives none.
pub open spec fn flag_in(m: Map<Seq<char>, u8>, name: Seq<char>) -> u8 {
    if m.contains_key(name) { m[name] } else { 0 }
}

/// The flag of `name` in the innermost of the scopes `0..=i` that flags it, else 0.
pub open spec fn flag_below(flags: Seq<Map<Seq<char>, u8>>, name: Seq<char>, i: int) -> u8
    decreases i + 1,
{
    if i < 0 {
        0
    } else if flags[i].contains_key(name) {
        flags[i][name]
    } else {
        flag_below(flags, name, i - 1)
    }
}

/// The innermost of the scopes `0..=i` that holds `name`.
pub open spec fn innermost_holding(scopes: Seq<Map<Seq<char>, TokenView>>, name: Seq<char>, i: int) -> Option<int>
    decreases i + 1,
{
    if i < 0 {
        None
    } else if scopes[i].contains_key(name) {
        Some(i)
    } else {
        innermost_holding(scopes, name, i - 1)
    }
}

/// The outermost of the scopes `i..` that holds `name`.
pub open spec fn outermost_holding(scopes: Seq<Map<Seq<char>, TokenView>>, name: Seq<char>, i: int) -> Option<int>
    decreases scopes.len() - i,
{
    if i < 0 || i >= scopes.len() {
        None
    } else if scopes[i].contains_key(name) {
        Some(i)
    } else {
        outermost_holding(scopes, name, i + 1)
    }
}

impl ScopesView {
    /// How many scopes there are.
    pub open spec fn depth(self) -> int {
        self.scopes.len() as int
    }

    /// The protection flag of `name`.
    pub open spec fn protection_of(self, name: Seq<char>) -> u8 {
        flag_in(self.protection, name)
    }

    /// The variable flag that decides how `name` is read and written.
    pub open spec fn flag_of(self, name: Seq<char>) -> u8 {
        flag_below(self.flags, name, self.flags.len() - 1)
    }

    /// The value of `name` read from the innermost scope that holds it.
    pub open spec fn read_up(self, name: Seq<char>) -> TokenView {
        match innermost_holding(self.scopes, name, self.depth() - 1) {
            Some(i) => self.scopes[i][name],
            None => udf_view(),
        }
    }

    /// The value of `name` read from the outermost scope that holds it.
    pub open spec fn read_down(self, name: Seq<char>) -> TokenView {
        match outermost_holding(self.scopes, name, 0) {
            Some(i) => self.scopes[i][name],
            None => udf_view(),
        }
    }

    /// The value of `name` read from the innermost scope only.
    pub open spec fn read_top(self, name: Seq<char>) -> TokenView {
        if self.scopes[self.depth() - 1].contains_key(name) {
            self.scopes[self.depth() - 1][name]
        } else {
            udf_view()
        }
    }

    /// The value of `name` read from the scope just below the innermost one only.
    pub open spec fn read_parent(self, name: Seq<char>) -> TokenView {
        if self.depth() >= 2 && self.scopes[self.depth() - 2].contains_key(name) {
            self.scopes[self.depth() - 2][name]
        } else {
            udf_view()
        }
    }

    /// What reading `name` gives.
    pub open spec fn lookup(self, name: Seq<char>) -> TokenView {
        if self.protection_of(name) == 1 {
            self.read_down(name)
        } else if self.flag_of(name) == 4 {
            self.read_top(name)
        } else if self.flag_of(name) == 5 {
            self.read_parent(name)
        } else if self.flag_of(name) > 1 {
            self.read_down(name)
        } else {
            self.read_up(name)
        }
    }

    /// The scopes with a new, empty innermost scope.
    pub open spec fn with_new_scope(self) -> ScopesView {
        ScopesView {
            scopes: self.scopes.push(Map::empty()),
            flags: self.flags.push(Map::empty()),
            ..self
        }
    }

    /// The scopes without their innermost scope.
    pub open spec fn without_top_scope(self) -> ScopesView {
        ScopesView {
            scopes: self.scopes.drop_last(),
            flags: self.flags.drop_last(),
            ..self
        }
    }

    /// The scopes with `name` unbound everywhere.
    pub open spec fn collected(self, name: Seq<char>) -> ScopesView {
        ScopesView {
            scopes: self.scopes.map_values(|m: Map<Seq<char>, TokenView>| m.remove(name)),
            ..self
        }
    }

    /// The scopes with `name` bound to `t` in scope `i`.
    pub open spec fn bind_in(self, i: int, name: Seq<char>, t: TokenView) -> ScopesView {
        ScopesView { scopes: self.scopes.update(i, self.scopes[i].insert(name, t)), ..self }
    }

    /// Writing `name` in the innermost scope that holds it, else in the innermost scope.
    pub open spec fn write_up(self, name: Seq<char>, t: TokenView) -> ScopesView {
        match innermost_holding(self.scopes, name, self.depth() - 1) {
            Some(i) => self.bind_in(i, name, t),
            None => self.bind_in(self.depth() - 1, name, t),
        }
    }

    /// Writing `name` in the outermost scope that holds it, else in the outermost scope.
    pub open spec fn write_down(self, name: Seq<char>, t: TokenView) -> ScopesView {
        match outermost_holding(self.scopes, name, 0) {
            Some(i) => self.bind_in(i, name, t),
            None => self.bind_in(0, name, t),
        }
    }

    /// What writing `t` to `name` leaves.
    pub open spec fn assign(self, name: Seq<char>, t: TokenView) -> ScopesView {
        let f = self.flag_of(name);
        if self.protection_of(name) == 1 {
            self
        } else if f % 2 == 0 && f < 3 {
            self.write_up(name, t)
        } else if f < 4 {
            self.write_down(name, t)
        } else if f == 4 {
            self.bind_in(self.depth() - 1, name, t)
        } else if f == 5 {
            self.bind_in(self.depth() - 2, name, t)
        } else {
            self
        }
    }

    /// The scopes with `name` unbound in scope `i`.
    pub open spec fn unbind_in(self, i: int, name: Seq<char>) -> ScopesView {
        ScopesView { scopes: self.scopes.update(i, self.scopes[i].remove(name)), ..self }
    }

    /// What removing `name` leaves: it goes from the first scope that holds it, searched
    /// from the outermost when its flag is above 1, else from the innermost.
    pub open spec fn removal(self, name: Seq<char>) -> ScopesView {
        let found = if self.flag_of(name) > 1 {
            outermost_holding(self.scopes, name, 0)
        } else {
            innermost_holding(self.scopes, name, self.depth() - 1)
        };
        match found {
            Some(i) => self.unbind_in(i, name),
            None => self,
        }
    }
}

/// A stack of variable scopes, with the flags that decide where each name is read and
/// written.
pub struct VarScopes {
    scopes: Vec<TokenDict>,
    scope_count: usize,
    var_flags: Vec<NameMap<u8>>,
    gv_flags: NameMap<u8>,
    inter_flags: NameMap<u8>,
}

impl VarScopes {
    pub closed spec fn view(&self) -> ScopesView {
        ScopesView {
            scopes: Seq::new(self.scopes@.len(), |i: int| self.scopes@[i].view()),
            flags: Seq::new(self.scopes@.len(), |i: int| self.var_flags@[i].view()),
            protection: self.gv_flags.view(),
            inter: self.inter_flags.view(),
        }
    }

    /// The stack holds one flag map per scope.
    pub proof fn lemma_flags_per_scope(&self)
        ensures
            self.view().flags.len() == self.view().depth(),
    {
    }

    /// The stack keeps one flag map per scope and counts its scopes.
    pub closed spec fn wf(&self) -> bool {
        self.scopes@.len() == self.scope_count && self.var_flags@.len() == self.scope_count
    }

    /// A stack with one empty scope, no flags.
    pub fn new() -> (r: VarScopes)
        ensures
            r.wf(),
            r.view().scopes == seq![Map::<Seq<char>, TokenView>::empty()],
            r.view().flags == seq![Map::<Seq<char>, u8>::empty()],
            r.view().protection == Map::<Seq<char>, u8>::empty(),
            r.view().inter == Map::<Seq<char>, u8>::empty(),
    {
        let mut scopes = Vec::new();
        scopes.push(TokenDict::new());
        let mut flags = Vec::new();
        flags.push(NameMap::new());
        let r = VarScopes {
            scopes: scopes,
            scope_count: 1,
            var_flags: flags,
            gv_flags: NameMap::new(),
            inter_flags: NameMap::new(),
        };
        assert(r.view().scopes =~= seq![Map::<Seq<char>, TokenView>::empty()]);
        assert(r.view().flags =~= seq![Map::<Seq<char>, u8>::empty()]);
        r
    }

    /// How many scopes there are.
    pub fn scope_count(&self) -> (r: usize)
        requires
            self.wf(),
        ensures
            r == self.view().depth(),
    {
        self.scope_count
    }

    /// The protection flag of `varname` (0 when it has none).
    pub fn find_gv(&self, varname: String) -> (r: u8)
        ensures
            r == self.view().protection_of(varname@),
    {
        match self.gv_flags.get(varname.as_str()) {
            Some(v) => *v,
            None => 0u8,
        }
    }

    /// The flag of `varname` in the innermost scope that flags it (0 when none does).
    pub fn find_flag(&self, varname: String) -> (r: u8)
        requires
            self.wf(),
            self.view().depth() >= 1,
        ensures
            r == self.view().flag_of(varname@),
    {
        let mut i: usize = self.scope_count - 1;
        loop
            invariant
                i < self.var_flags@.len(),
                self.var_flags@.len() == self.view().flags.len(),
                self.view().flag_of(varname@) == flag_below(self.view().flags, varname@, i as int),
            decreases i,
        {
            if self.var_flags[i].contains_key(varname.as_str()) {
                return match self.var_flags[i].get(varname.as_str()) {
                    Some(v) => *v,
                    None => 0u8,
                };
            }
            assert(!self.view().flags[i as int].contains_key(varname@));
            if i == 0 {
                assert(flag_below(self.view().flags, varname@, -1) == 0);
                return 0u8;
            }
            i -= 1;
        }
    }

    /// The flag that scope `scope` itself gives `varname` (0 when it gives none).
    pub fn find_flag_for_scope(&self, varname: String, scope: usize) -> (r: u8)
        requires
            self.wf(),
            scope < self.view().depth(),
        ensures
            r == flag_in(self.view().flags[scope as int], varname@),
    {
        match self.var_flags[scope].get(varname.as_str()) {
            Some(v) => *v,
            None => 0u8,
        }
    }

    /// Whether the innermost scope flags `varname`.
    pub fn var_has_flag(&self, varname: String) -> (r: bool)
        requires
            self.wf(),
            self.view().depth() >= 1,
        ensures
            r == self.view().flags.last().contains_key(varname@),
    {
        self.var_flags[self.scope_count - 1].contains_key(varname.as_str())
    }

    /// Flags `varname` with `flag_value` in the innermost scope.
    pub fn flag_var(&mut self, varname: String, flag_value: u8)
        requires
            old(self).wf(),
            old(self).view().depth() >= 1,
        ensures
            final(self).wf(),
            final(self).view() == (ScopesView {
                flags: old(self).view().flags.update(
                    old(self).view().depth() - 1,
                    old(self).view().flags.last().insert(varname@, flag_value),
                ),
                ..old(self).view()
            }),
    {
        let top = self.scope_count - 1;
        self.var_flags[top].insert(varname, flag_value);
        assert(self.view().flags =~= old(self).view().flags.update(
            old(self).view().depth() - 1,
            old(self).view().flags.last().insert(varname@, flag_value),
        ));
        assert(self.view().scopes =~= old(self).view().scopes);
    }

    /// Gives `varname` the protection flag `flag_value`.
    pub fn set_protection(&mut self, varname: &str, flag_value: u8)
        requires
            old(self).wf(),
        ensures
            final(self).wf(),
            final(self).view() == (ScopesView {
                protection: old(self).view().protection.insert(varname@, flag_value),
                ..old(self).view()
            }),
    {
        self.gv_flags.insert(copy_str(varname), flag_value);
        assert(self.view().flags =~= old(self).view().flags);
        assert(self.view().scopes =~= old(self).view().scopes);
    }

    /// Binds `name` to `value` in the outermost scope (`id` 0, `GLOBAL`) or the innermost
    /// one (`id` 1, `LOCAL`).
    pub fn write_to_scope(&mut self, id: usize, name: &str, value: Token)
        requires
            old(self).wf(),
            old(self).view().depth() >= 1,
            id <= 1,
        ensures
            final(self).wf(),
            final(self).view() == old(self).view().bind_in(
                if id == 1 { old(self).view().depth() - 1 } else { 0 },
                name@,
                value.view(),
            ),
    {
        let id = if id == 1 { self.scopes.len() - 1 } else { id };
        let ghost vv = value.view();
        self.scopes[id].insert(copy_str(name), value);
        assert(self.view().scopes =~= old(self).view().scopes.update(id as int, old(self).view().scopes[id as int].insert(name@, vv)));
        assert(self.view().flags =~= old(self).view().flags);
    }

    /// Opens a new, empty innermost scope.
    pub fn new_scope(&mut self)
        requires
            old(self).wf(),
            old(self).view().depth() < usize::MAX,
        ensures
            final(self).wf(),
            final(self).view() == old(self).view().with_new_scope(),
    {
        self.scope_count += 1;
        self.scopes.push(TokenDict::new());
        self.var_flags.push(NameMap::new());
        assert(self.view().scopes =~= old(self).view().scopes.push(Map::empty()));
        assert(self.view().flags =~= old(self).view().flags.push(Map::empty()));
    }

    /// Closes the innermost scope, dropping its variables and flags.
    pub fn rem_scope(&mut self)
        requires
            old(self).wf(),
            old(self).view().depth() >= 1,
        ensures
            final(self).wf(),
            final(self).view() == old(self).view().without_top_scope(),
    {
        self.scope_count -= 1;
        self.scopes.pop();
        self.var_flags.pop();
        assert(self.view().scopes =~= old(self).view().scopes.drop_last());
        assert(self.view().flags =~= old(self).view().flags.drop_last());
    }

    /// Reads `name` from the innermost scope that holds it; undefined when none does.
    pub fn get_r(&self, name: &str) -> (r: Token)
        requires
            self.wf(),
            self.view().depth() >= 1,
        ensures
            r.view() == self.view().read_up(name@),
    {
        let mut i: usize = self.scope_count - 1;
        loop
            invariant
                i < self.scopes@.len(),
                self.wf(),
                innermost_holding(self.view().scopes, name@, self.view().depth() - 1)
                    == innermost_holding(self.view().scopes, name@, i as int),
            decreases i,
        {
            assert(self.view().scopes[i as int] == self.scopes@[i as int].view());
            match self.scopes[i].get(name) {
                Some(t) => {
                    return t.clone();
                },
                None => {},
            }
            if i == 0 {
                assert(innermost_holding(self.view().scopes, name@, -1) is None);
                return udf_token();
            }
            i -= 1;
        }
    }

    /// Reads `name` from the outermost scope that holds it; undefined when none does.
    pub fn get_f(&self, name: &str) -> (r: Token)
        requires
            self.wf(),
        ensures
            r.view() == self.view().read_down(name@),
    {
        let mut i: usize = 0;
        while i < self.scope_count
            invariant
                i <= self.scopes@.len(),
                self.wf(),
                outermost_holding(self.view().scopes, name@, 0)
                    == outermost_holding(self.view().scopes, name@, i as int),
            decreases self.scope_count - i,
        {
            assert(self.view().scopes[i as int] == self.scopes@[i as int].view());
            match self.scopes[i].get(name) {
                Some(t) => {
                    return t.clone();
                },
                None => {},
            }
            i += 1;
        }
        udf_token()
    }

    /// Reads a unique variable: from the innermost scope only, where it is written;
    /// undefined when it is not there.
    pub fn get_u(&self, name: &str) -> (r: Token)
        requires
            self.wf(),
            self.view().depth() >= 1,
        ensures
            r.view() == self.view().read_top(name@),
    {
        let top = self.scope_count - 1;
        assert(self.view().scopes[top as int] == self.scopes@[top as int].view());
        match self.scopes[top].get(name) {
            Some(t) => t.clone(),
            None => udf_token(),
        }
    }

    /// Reads a parent variable: from the scope just below the innermost one only, where
    /// it is written; undefined when it is not there or there is no such scope.
    pub fn get_p(&self, name: &str) -> (r: Token)
        requires
            self.wf(),
            self.view().depth() >= 1,
        ensures
            r.view() == self.view().read_parent(name@),
    {
        if self.scope_count < 2 {
            return udf_token();
        }
        let below = self.scope_count - 2;
        assert(self.view().scopes[below as int] == self.scopes@[below as int].view());
        match self.scopes[below].get(name) {
            Some(t) => t.clone(),
            None => udf_token(),
        }
    }

    /// Reads `name` as its flags say.
    pub fn get(&self, name: &str) -> (r: Token)
        requires
            self.wf(),
            self.view().depth() >= 1,
        ensures
            r.view() == self.view().lookup(name@),
    {
        if self.find_gv(copy_str(name)) == 1 {
            return self.get_f(name);
        }
        let flag = self.find_flag(copy_str(name));
        if flag == 4 {
            return self.get_u(name);
        }
        if flag == 5 {
            return self.get_p(name);
        }
        if flag > 1 {
            return self.get_f(name);
        }
        self.get_r(name)
    }

    /// Binds `name` in scope `i`.
    fn bind(&mut self, i: usize, name: &str, value: Token)
        requires
            old(self).wf(),
            i < old(self).view().depth(),
        ensures
            final(self).wf(),
            final(self).view() == old(self).view().bind_in(i as int, name@, value.view()),
            final(self).scope_count == old(self).scope_count,
    {
        let ghost vv = value.view();
        self.scopes[i].insert(copy_str(name), value);
        assert(self.view().scopes =~= old(self).view().scopes.update(i as int, old(self).view().scopes[i as int].insert(name@, vv)));
        assert(self.view().flags =~= old(self).view().flags);
    }

    /// Writes `name` in the innermost scope that holds it, else in the innermost scope.
    pub fn set_r(&mut self, name: &str, value: Token)
        requires
            old(self).wf(),
            old(self).view().depth() >= 1,
        ensures
            final(self).wf(),
            final(self).view() == old(self).view().write_up(name@, value.view()),
    {
        let mut i: usize = self.scope_count - 1;
        loop
            invariant
                i < self.scopes@.len(),
                self.wf(),
                *self == *old(self),
                innermost_holding(self.view().scopes, name@, self.view().depth() - 1)
                    == innermost_holding(self.view().scopes, name@, i as int),
            decreases i,
        {
            assert(self.view().scopes[i as int] == self.scopes@[i as int].view());
            if self.scopes[i].contains_key(name) {
                self.bind(i, name, value);
                return;
            }
            if i == 0 {
                assert(innermost_holding(self.view().scopes, name@, -1) is None);
                let top = self.scope_count - 1;
                self.bind(top, name, value);
                return;
            }
            i -= 1;
        }
    }

    /// Writes `name` in the outermost scope that holds it, else in the outermost scope.
    pub fn set_f(&mut self, name: &str, value: Token)
        requires
            old(self).wf(),
            old(self).view().depth() >= 1,
        ensures
            final(self).wf(),
            final(self).view() == old(self).view().write_down(name@, value.view()),
    {
        let mut i: usize = 0;
        while i < self.scope_count
            invariant
                i <= self.scopes@.len(),
                self.wf(),
                *self == *old(self),
                outermost_holding(self.view().scopes, name@, 0)
                    == outermost_holding(self.view().scopes, name@, i as int),
            decreases self.scope_count - i,
        {
            assert(self.view().scopes[i as int] == self.scopes@[i as int].view());
            if self.scopes[i].contains_key(name) {
                self.bind(i, name, value);
                return;
            }
            i += 1;
        }
        self.bind(0, name, value);
    }

    /// Writes `name` in the innermost scope.
    pub fn set_u(&mut self, name: &str, value: Token)
        requires
            old(self).wf(),
            old(self).view().depth() >= 1,
        ensures
            final(self).wf(),
            final(self).view() == old(self).view().bind_in(old(self).view().depth() - 1, name@, value.view()),
    {
        let top = self.scope_count - 1;
        self.bind(top, name, value);
    }

    /// Writes `name` in the scope below the innermost one.
    pub fn set_p(&mut self, name: &str, value: Token)
        requires
            old(self).wf(),
            old(self).view().depth() >= 2,
        ensures
            final(self).wf(),
            final(self).view() == old(self).view().bind_in(old(self).view().depth() - 2, name@, value.view()),
    {
        let below = self.scope_count - 2;
        self.bind(below, name, value);
    }

    /// Writes `value` to `name` as its flags say; a protected name is left as it is.
    pub fn set(&mut self, name: &str, value: Token)
        requires
            old(self).wf(),
            old(self).view().depth() >= 1,
            old(self).view().protection_of(name@) != 1 && old(self).view().flag_of(name@) == 5
                ==> old(self).view().depth() >= 2,
        ensures
            final(self).wf(),
            final(self).view() == old(self).view().assign(name@, value.view()),
    {
        if self.find_gv(copy_str(name)) == 1 {
            return;
        }
        let flag = self.find_flag(copy_str(name));
        if flag % 2 == 0 && flag < 3 {
            self.set_r(name, value);
        } else if flag < 4 {
            self.set_f(name, value);
        } else if flag == 4 {
            self.set_u(name, value);
        } else if flag == 5 {
            self.set_p(name, value);
        }
    }

    /// Unbinds `name` in scope `i`.
    fn unbind(&mut self, i: usize, name: &str) -> (r: bool)
        requires
            old(self).wf(),
            i < old(self).view().depth(),
        ensures
            final(self).wf(),
            r == old(self).view().scopes[i as int].contains_key(name@),
            final(self).view() == old(self).view().unbind_in(i as int, name@),
            final(self).scope_count == old(self).scope_count,
    {
        let removed = self.scopes[i].remove(name);
        assert(self.view().scopes =~= old(self).view().scopes.update(i as int, old(self).view().scopes[i as int].remove(name@)));
        assert(self.view().flags =~= old(self).view().flags);
        removed.is_some()
    }

    /// Removes `name` from the innermost scope that holds it.
    pub fn rm_r(&mut self, name: &str)
        requires
            old(self).wf(),
            old(self).view().depth() >= 1,
            old(self).view().flag_of(name@) <= 1,
        ensures
            final(self).wf(),
            final(self).view() == old(self).view().removal(name@),
    {
        let mut i: usize = self.scope_count - 1;
        loop
            invariant
                i < self.scopes@.len(),
                self.wf(),
                *self == *old(self),
                old(self).view().flag_of(name@) <= 1,
                innermost_holding(self.view().scopes, name@, self.view().depth() - 1)
                    == innermost_holding(self.view().scopes, name@, i as int),
            decreases i,
        {
            if !self.scopes[i].contains_key(name) {
                assert(!self.view().scopes[i as int].contains_key(name@));
                if i == 0 {
                    assert(innermost_holding(self.view().scopes, name@, -1) is None);
                    assert(innermost_holding(self.view().scopes, name@, 0) is None);
                    assert(old(self).view().removal(name@) == old(self).view());
                    return;
                }
                i -= 1;
            } else {
                assert(self.view().scopes[i as int].contains_key(name@));
                assert(innermost_holding(self.view().scopes, name@, i as int) == Some(i as int));
                self.unbind(i, name);
                return;
            }
        }
    }

    /// Removes `name` from the outermost scope that holds it.
    pub fn rm_f(&mut self, name: &str)
        requires
            old(self).wf(),
            old(self).view().flag_of(name@) > 1,
        ensures
            final(self).wf(),
            final(self).view() == old(self).view().removal(name@),
    {
        let mut i: usize = 0;
        while i < self.scope_count
            invariant
                i <= self.scopes@.len(),
                self.wf(),
                *self == *old(self),
                old(self).view().flag_of(name@) > 1,
                outermost_holding(self.view().scopes, name@, 0)
                    == outermost_holding(self.view().scopes, name@, i as int),
            decreases self.scope_count - i,
        {
            assert(self.view().scopes[i as int] == self.scopes@[i as int].view());
            if self.scopes[i].contains_key(name) {
                assert(outermost_holding(self.view().scopes, name@, i as int) == Some(i as int));
                self.unbind(i, name);
                return;
            }
            i += 1;
        }
        assert(outermost_holding(self.view().scopes, name@, i as int) is None);
        assert(old(self).view().removal(name@) == old(self).view());
    }

    /// Removes `name` from the first scope that holds it, searching from the outermost
    /// when its flag is above 1, else from the innermost.
    pub fn rm(&mut self, name: &str)
        requires
            old(self).wf(),
            old(self).view().depth() >= 1,
        ensures
            final(self).wf(),
            final(self).view() == old(self).view().removal(name@),
    {
        if self.find_flag(copy_str(name)) > 1 {
            self.rm_f(name);
        } else {
            self.rm_r(name);
        }
    }

    /// Removes `name` from every scope.
    pub fn garbage(&mut self, name: &str)
        requires
            old(self).wf(),
        ensures
            final(self).wf(),
            final(self).view() == old(self).view().collected(name@),
    {
        let mut i: usize = 0;
        while i < self.scope_count
            invariant
                i <= self.scopes@.len(),
                self.wf(),
                self.view().flags == old(self).view().flags,
                self.view().protection == old(self).view().protection,
                self.view().inter == old(self).view().inter,
                self.view().scopes.len() == old(self).view().scopes.len(),
                self.scope_count == old(self).scope_count,
                forall|j: int| 0 <= j < self.view().scopes.len() ==> #[trigger] self.view().scopes[j]
                    == if j < i { old(self).view().scopes[j].remove(name@) } else { old(self).view().scopes[j] },
            decreases self.scope_count - i,
        {
            self.unbind(i, name);
            i += 1;
        }
        assert(self.view().scopes =~= old(self).view().collected(name@).scopes);
    }

    /// Empties every scope.
    pub fn clear(&mut self)
        requires
            old(self).wf(),
        ensures
            final(self).wf(),
            final(self).view() == (ScopesView {
                scopes: Seq::new(old(self).view().scopes.len(), |i: int| Map::<Seq<char>, TokenView>::empty()),
                ..old(self).view()
            }),
    {
        let mut i: usize = 0;
        while i < self.scope_count
            invariant
                i <= self.scopes@.len(),
                self.wf(),
                self.view().flags == old(self).view().flags,
                self.view().protection == old(self).view().protection,
                self.view().inter == old(self).view().inter,
                self.view().scopes.len() == old(self).view().scopes.len(),
                forall|j: int| 0 <= j < self.view().scopes.len() ==> #[trigger] self.view().scopes[j]
                    == if j < i { Map::<Seq<char>, TokenView>::empty() } else { old(self).view().scopes[j] },
            decreases self.scope_count - i,
        {
            let ghost before = self.view();
            self.scopes[i].clear();
            assert(self.view().flags =~= before.flags);
            assert(self.view().scopes =~= before.scopes.update(i as int, Map::<Seq<char>, TokenView>::empty()));
            i += 1;
        }
        assert(self.view().scopes =~= Seq::new(old(self).view().scopes.len(), |i: int| Map::<Seq<char>, TokenView>::empty()));
    }

    /// Gives `varname` the interface flag `flag` (1 keeps it private to its module).
    pub fn inter_flag_set(&mut self, varname: &str, flag: u8)
        requires
            old(self).wf(),
        ensures
            final(self).wf(),
            final(self).view() == (ScopesView {
                inter: old(self).view().inter.insert(varname@, flag),
                ..old(self).view()
            }),
    {
        self.inter_flags.insert(copy_str(varname), flag);
        assert(self.view().flags =~= old(self).view().flags);
        assert(self.view().scopes =~= old(self).view().scopes);
    }

    /// The interface flag of `varname` (0 when it has none).
    pub fn inter_flag_get(&self, varname: &str) -> (r: u8)
        ensures
            r == flag_in(self.view().inter, varname@),
    {
        match self.inter_flags.get(varname) {
            Some(v) => *v,
            None => 0u8,
        }
    }
}

/// The heading of the dump of scope `index`.
pub open spec fn scope_heading(index: int) -> Seq<char> {
    "dumping var scope "@ + int_decimal(index) + ":"@
}

/// The line that shows `name` bound to `t`, marked when the name is protected.
pub open spec fn binding_line(name: Seq<char>, t: TokenView, protected: bool) -> Seq<char> {
    name + " : "@ + displayed(t) + if protected { " protected"@ } else { Seq::empty() }
}

/// The heading of the dump of the flags of scope `index`.
pub open spec fn flags_heading(index: int) -> Seq<char> {
    "dumping flags "@ + int_decimal(index)
}

/// The line that shows `name` flagged `f`.
pub open spec fn flag_line(name: Seq<char>, f: u8) -> Seq<char> {
    name + " : "@ + int_decimal(f as int)
}

/// Whether `order` lists the names bound in `m`, each once.
pub open spec fn lists_names<V>(order: Seq<Seq<char>>, m: Map<Seq<char>, V>) -> bool {
    &&& order.no_duplicates()
    &&& forall|k: Seq<char>| m.contains_key(k) <==> #[trigger] order.contains(k)
}

/// The lines that show a scope: its heading, then one line per binding, each binding
/// of the scope shown once.
pub open spec fn shows_scope(lines: Seq<String>, v: ScopesView, index: int) -> bool {
    &&& lines.len() == v.scopes[index].len() + 1
    &&& lines[0]@ == scope_heading(index)
    &&& exists|order: Seq<Seq<char>>| #[trigger] lists_names(order, v.scopes[index])
        && order.len() + 1 == lines.len()
        && forall|j: int| 1 <= j < lines.len() ==> (#[trigger] lines[j])@
            == binding_line(order[j - 1], v.scopes[index][order[j - 1]], v.protection_of(order[j - 1]) == 1)
}

/// The lines that show the flags of a scope: its heading, then one line per flag, each
/// flagged name of the scope shown once.
pub open spec fn shows_flags(lines: Seq<String>, v: ScopesView, index: int) -> bool {
    &&& lines.len() == v.flags[index].len() + 1
    &&& lines[0]@ == flags_heading(index)
    &&& exists|order: Seq<Seq<char>>| #[trigger] lists_names(order, v.flags[index])
        && order.len() + 1 == lines.len()
        && forall|j: int| 1 <= j < lines.len() ==> (#[trigger] lines[j])@ == flag_line(order[j - 1], v.flags[index][order[j - 1]])
}

impl VarScopes {
    /// The lines that show scope `index`: a heading, then each name with its value,
    /// protected names marked.
    fn dumpscope(&self, index: usize) -> (r: Vec<String>)
        requires
            self.wf(),
            index < self.view().depth(),
            forall|k: Seq<char>| #[trigger] self.view().scopes[index as int].contains_key(k)
                ==> self.view().scopes[index as int][k].id <= PTR,
        ensures
            shows_scope(r@, self.view(), index as int),
    {
        let mut lines: Vec<String> = Vec::new();
        let head = append_chars(chars_of("dumping var scope "), &u64_digits(index as u64));
        let head = append_chars(head, &chars_of(":"));
        lines.push(string_of(&head));
        let d = &self.scopes[index];
        assert(self.view().scopes[index as int] == d.view());
        let n = d.len();
        let mut i: usize = 0;
        while i < n
            invariant
                i <= n,
                self.wf(),
                index < self.view().depth(),
                n == d.view().len(),
                d.view() == self.view().scopes[index as int],
                forall|k: Seq<char>| #[trigger] self.view().scopes[index as int].contains_key(k)
                    ==> self.view().scopes[index as int][k].id <= PTR,
                lines@.len() == i + 1,
                lines@[0]@ == scope_heading(index as int),
                n == d.names().len(),
                forall|j: int| 1 <= j < lines@.len() ==> (#[trigger] lines@[j])@ == binding_line(d.names()[j - 1],
                    self.view().scopes[index as int][d.names()[j - 1]], self.view().protection_of(d.names()[j - 1]) == 1),
            decreases n - i,
        {
            let (key, val) = d.entry(i);
            let mut line = append_chars(chars_of(key.as_str()), &chars_of(" : "));
            line = append_chars(line, &chars_of(val.display().as_str()));
            let prot = self.find_gv(key.clone()) == 1;
            if prot {
                line = append_chars(line, &chars_of(" protected"));
            }
            let ghost kk = key@;
            assert(line@ =~= binding_line(kk, self.view().scopes[index as int][kk], self.view().protection_of(kk) == 1));
            lines.push(string_of(&line));
            assert(lines@[i + 1]@ == binding_line(kk, self.view().scopes[index as int][kk], self.view().protection_of(kk) == 1));
            i += 1;
        }
        assert(lines@.len() == self.view().scopes[index as int].len() + 1);
        assert(lines@[0]@ == scope_heading(index as int));
        assert(lists_names(d.names(), self.view().scopes[index as int]));
        lines
    }

    /// Whether every value held in the scopes has a known kind (an identifier up to `PTR`).
    pub fn kinds_known(&self) -> (r: bool)
        requires
            self.wf(),
        ensures
            r == forall|i: int, k: Seq<char>| 0 <= i < self.view().depth() && #[trigger] self.view().scopes[i].contains_key(k)
                ==> self.view().scopes[i][k].id <= PTR,
    {
        let mut i: usize = 0;
        while i < self.scopes.len()
            invariant
                i <= self.scopes.len(),
                self.wf(),
                self.scopes.len() == self.view().depth(),
                forall|x: int, k: Seq<char>| 0 <= x < i && #[trigger] self.view().scopes[x].contains_key(k)
                    ==> self.view().scopes[x][k].id <= PTR,
            decreases self.scopes.len() - i,
        {
            assert(self.view().scopes[i as int] == self.scopes[i as int].view());
            if !self.scopes[i].kinds_known() {
                return false;
            }
            i += 1;
        }
        true
    }

    /// The lines that show scope `sid`, or every scope in turn when `sid` is 2.
    pub fn dump(&self, sid: usize) -> (r: Vec<Vec<String>>)
        requires
            self.wf(),
            sid == 2 || sid < self.view().depth(),
            forall|i: int, k: Seq<char>| 0 <= i < self.view().depth() && #[trigger] self.view().scopes[i].contains_key(k)
                ==> self.view().scopes[i][k].id <= PTR,
        ensures
            sid == 2 ==> r@.len() == self.view().depth()
                && forall|i: int| 0 <= i < r@.len() ==> shows_scope(#[trigger] r@[i]@, self.view(), i),
            sid != 2 ==> r@.len() == 1 && shows_scope(r@[0]@, self.view(), sid as int),
    {
        let mut out: Vec<Vec<String>> = Vec::new();
        if sid == 2 {
            let l = self.scopes.len();
            let mut i: usize = 0;
            while i < l
                invariant
                    i <= l,
                    self.wf(),
                    l == self.view().depth(),
                    forall|i: int, k: Seq<char>| 0 <= i < self.view().depth() && #[trigger] self.view().scopes[i].contains_key(k)
                        ==> self.view().scopes[i][k].id <= PTR,
                    out@.len() == i,
                    forall|j: int| 0 <= j < i ==> shows_scope(#[trigger] out@[j]@, self.view(), j),
                decreases l - i,
            {
                out.push(self.dumpscope(i));
                i += 1;
            }
        } else {
            out.push(self.dumpscope(sid));
        }
        out
    }

    /// The lines that show the flags of every scope: for each scope a heading, then each
    /// flagged name with its flag.
    pub fn dump_flags(&self) -> (r: Vec<Vec<String>>)
        requires
            self.wf(),
        ensures
            r@.len() == self.view().depth(),
            forall|i: int| 0 <= i < r@.len() ==> shows_flags((#[trigger] r@[i])@, self.view(), i),
    {
        let mut out: Vec<Vec<String>> = Vec::new();
        let l = self.var_flags.len();
        let mut i: usize = 0;
        while i < l
            invariant
                i <= l,
                self.wf(),
                l == self.view().depth(),
                out@.len() == i,
                forall|x: int| 0 <= x < i ==> shows_flags((#[trigger] out@[x])@, self.view(), x),
            decreases l - i,
        {
            let mut lines: Vec<String> = Vec::new();
            let head = append_chars(chars_of("dumping flags "), &u64_digits(i as u64));
            lines.push(string_of(&head));
            let m = &self.var_flags[i];
            assert(self.view().flags[i as int] == m.view());
            let n = m.len();
            let mut k: usize = 0;
            while k < n
                invariant
                    k <= n,
                    self.wf(),
                    i < l,
                    l == self.view().depth(),
                    n == m.view().len(),
                    m.view() == self.view().flags[i as int],
                    lines@.len() == k + 1,
                    lines@[0]@ == flags_heading(i as int),
                    n == m.names().len(),
                    forall|j: int| 1 <= j < lines@.len() ==> (#[trigger] lines@[j])@
                        == flag_line(m.names()[j - 1], self.view().flags[i as int][m.names()[j - 1]]),
                decreases n - k,
            {
                let (key, val) = m.entry(k);
                let line = append_chars(chars_of(key.as_str()), &chars_of(" : "));
                let line = append_chars(line, &u64_digits(*val as u64));
                let ghost kk = key@;
                assert(line@ =~= flag_line(kk, self.view().flags[i as int][kk]));
                lines.push(string_of(&line));
                assert(lines@[k + 1]@ == flag_line(kk, self.view().flags[i as int][kk]));
                k += 1;
            }
            assert(lists_names(m.names(), self.view().flags[i as int]));
            let ghost prev = out@;
            out.push(lines);
            assert(out@[i as int] == lines);
            assert(forall|x: int| 0 <= x < i ==> out@[x] == prev[x]);
            i += 1;
        }
        out
    }
}

/// The undefined token.
pub fn udf_token() -> (r: Token)
    ensures
        r.view() == udf_view(),
        !r.escape,
{
    let t = Token::news(UDF, "UDF", BASE_TOKEN);
    assert(data_type_of(UDF, "UDF"@) == (DT_UDF, "UDF"@));
    t
}

} // verus!
