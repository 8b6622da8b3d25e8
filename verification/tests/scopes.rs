use lang_1::scopes::VarScopes;
use lang_1::statics::{Token, LIT, UDF};

fn lit(v: &str) -> Token {
    Token::newsb(LIT, v)
}

#[test]
fn fresh_memory_reads_undefined() {
    let m = VarScopes::new();
    assert_eq!(m.scope_count(), 1);
    let t = m.get("x");
    assert_eq!(t.id, UDF);
    assert_eq!(t.value, "UDF");
}

#[test]
fn set_then_get_reads_back() {
    let mut m = VarScopes::new();
    m.set("x", lit("1"));
    assert_eq!(m.get("x").value, "1");
    m.set("x", lit("2"));
    assert_eq!(m.get("x").value, "2");
}

#[test]
fn inner_scope_writes_through_to_holder() {
    let mut m = VarScopes::new();
    m.set("x", lit("1"));
    m.new_scope();
    assert_eq!(m.scope_count(), 2);
    m.set("x", lit("2"));
    m.set("y", lit("3"));
    assert_eq!(m.get("y").value, "3");
    m.rem_scope();
    assert_eq!(m.scope_count(), 1);
    assert_eq!(m.get("x").value, "2");
    assert_eq!(m.get("y").id, UDF);
}

#[test]
fn global_flag_writes_outermost() {
    let mut m = VarScopes::new();
    m.new_scope();
    m.flag_var("g".to_string(), 3);
    assert!(m.var_has_flag("g".to_string()));
    assert_eq!(m.find_flag("g".to_string()), 3);
    m.set("g", lit("5"));
    m.rem_scope();
    assert_eq!(m.get("g").value, "5");
}

#[test]
fn protected_name_is_never_written() {
    let mut m = VarScopes::new();
    m.set("p", lit("1"));
    m.set_protection("p", 1);
    assert_eq!(m.find_gv("p".to_string()), 1);
    m.set("p", lit("2"));
    assert_eq!(m.get("p").value, "1");
}

#[test]
fn write_to_scope_picks_a_scope() {
    let mut m = VarScopes::new();
    m.new_scope();
    m.write_to_scope(0, "a", lit("1"));
    m.write_to_scope(1, "b", lit("2"));
    assert_eq!(m.get_f("a").value, "1");
    assert_eq!(m.get_u("b").value, "2");
    assert_eq!(m.get_u("a").id, UDF);
    assert_eq!(m.get_p("a").value, "1");
    assert_eq!(m.get_p("b").id, UDF);
}

#[test]
fn unique_and_parent_variables_read_back_where_written() {
    let mut m = VarScopes::new();
    m.new_scope();
    m.flag_var("u".to_string(), 4);
    m.set("u", lit("7"));
    assert_eq!(m.get("u").value, "7");
    m.flag_var("q".to_string(), 5);
    m.set("q", lit("8"));
    assert_eq!(m.get("q").value, "8");
    assert_eq!(m.get_f("q").value, "8");
}

#[test]
fn rm_removes_innermost_binding() {
    let mut m = VarScopes::new();
    m.set("x", lit("1"));
    m.new_scope();
    m.set_u("x", lit("2"));
    assert_eq!(m.get("x").value, "2");
    m.rm("x");
    assert_eq!(m.get("x").value, "1");
}

#[test]
fn garbage_removes_everywhere() {
    let mut m = VarScopes::new();
    m.set("x", lit("1"));
    m.new_scope();
    m.set_u("x", lit("2"));
    m.garbage("x");
    assert_eq!(m.get("x").id, UDF);
    assert_eq!(m.scope_count(), 2);
}

#[test]
fn clear_empties_every_scope() {
    let mut m = VarScopes::new();
    m.set("x", lit("1"));
    m.new_scope();
    m.set_u("y", lit("2"));
    m.clear();
    assert_eq!(m.get("x").id, UDF);
    assert_eq!(m.get("y").id, UDF);
    assert_eq!(m.scope_count(), 2);
}

#[test]
fn inter_flags_default_to_zero() {
    let mut m = VarScopes::new();
    assert_eq!(m.inter_flag_get("x"), 0);
    m.inter_flag_set("x", 1);
    assert_eq!(m.inter_flag_get("x"), 1);
}

#[test]
fn dump_shows_headings_and_bindings() {
    let mut m = VarScopes::new();
    m.set("x", lit("1"));
    m.set_protection("x", 1);
    let d = m.dump(0);
    assert_eq!(d.len(), 1);
    assert_eq!(d[0], vec!["dumping var scope 0:".to_string(), "x : (LIT, \"1\") protected".to_string()]);
    m.new_scope();
    let all = m.dump(2);
    assert_eq!(all.len(), 2);
    assert_eq!(all[1], vec!["dumping var scope 1:".to_string()]);
}

#[test]
fn dump_flags_shows_each_scope() {
    let mut m = VarScopes::new();
    m.flag_var("g".to_string(), 3);
    let d = m.dump_flags();
    assert_eq!(d, vec![vec!["dumping flags 0".to_string(), "g : 3".to_string()]]);
}

#[test]
fn writing_one_name_keeps_the_others() {
    let mut m = VarScopes::new();
    m.set("x", lit("1"));
    m.new_scope();
    m.set("y", lit("2"));
    m.set("x", lit("3"));
    m.set("z", lit("4"));
    assert_eq!(m.get("y").value, "2");
    assert_eq!(m.get("z").value, "4");
    assert_eq!(m.get("x").value, "3");
}

#[test]
fn a_fresh_name_protected_after_writing_reads_back() {
    let mut m = VarScopes::new();
    m.new_scope();
    m.set("s", lit("9"));
    m.set_protection("s", 1);
    assert_eq!(m.get("s").value, "9");
    m.set("s", lit("10"));
    assert_eq!(m.get("s").value, "9");
}
