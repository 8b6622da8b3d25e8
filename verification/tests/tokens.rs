use lang_1::statics::{Token, BASE_TOKEN, DICT_TOKEN, LIST_TOKEN, LIT, REF, LST, DCT, SEP, FUN, PTR};
use lang_1::statics::{DT_STR, DT_NUM, DT_BOL, DT_UDF, DT_LST, DT_DCT};

#[test]
fn string_literal_is_a_string() {
    let t = Token::news(LIT, "\"hi\"", BASE_TOKEN);
    assert_eq!(t.data_type, DT_STR);
    assert_eq!(t.value, "\"hi\"");
    assert_eq!(t.tt(), BASE_TOKEN);
    assert!(t.list.is_none() && t.dict.is_none());
}

#[test]
fn string_literal_escapes_are_read() {
    let t = Token::news(LIT, "\"a\\nb\\tc\"", BASE_TOKEN);
    assert_eq!(t.value, "\"a\nb\tc\"");
    let e = Token::news(LIT, "\"\\x1b[0m\"", BASE_TOKEN);
    assert_eq!(e.value, "\"\u{1b}[0m\"");
}

#[test]
fn decimal_literal_is_a_number() {
    let t = Token::news(LIT, "42", BASE_TOKEN);
    assert_eq!(t.data_type, DT_NUM);
    assert_eq!(t.value, "42");
    let d = Token::news(LIT, "3.25", BASE_TOKEN);
    assert_eq!(d.data_type, DT_NUM);
    assert_eq!(d.value, "3.25");
}

#[test]
fn hex_and_binary_literals_keep_their_text() {
    // a leading digit already reads as a decimal number, so the text is kept
    let h = Token::news(LIT, "0x1f", BASE_TOKEN);
    assert_eq!(h.data_type, DT_NUM);
    assert_eq!(h.value, "0x1f");
    let b = Token::news(LIT, "0b101", BASE_TOKEN);
    assert_eq!(b.data_type, DT_NUM);
    assert_eq!(b.value, "0b101");
}

#[test]
fn boolean_and_undefined_literals() {
    assert_eq!(Token::news(LIT, "true", BASE_TOKEN).data_type, DT_BOL);
    assert_eq!(Token::news(LIT, "null", BASE_TOKEN).data_type, DT_BOL);
    assert_eq!(Token::news(LIT, "@", BASE_TOKEN).data_type, DT_UDF);
    assert_eq!(Token::news(REF, "x", BASE_TOKEN).data_type, DT_UDF);
    assert_eq!(Token::news(LST, "L", LIST_TOKEN).data_type, DT_LST);
    assert_eq!(Token::news(DCT, "D", DICT_TOKEN).data_type, DT_DCT);
}

#[test]
fn calc_dt_gives_type_and_text() {
    let (dt, v) = Token::calc_dt(LIT, "0x10".to_string());
    assert_eq!(dt, DT_NUM);
    assert_eq!(v, "0x10");
    let (dt, v) = Token::calc_dt(LIT, "\"a\\nb\"".to_string());
    assert_eq!(dt, DT_STR);
    assert_eq!(v, "\"a\nb\"");
}

#[test]
fn new_ptr_takes_the_type_of_its_target() {
    let p = Token::new_ptr(LIT, "x".to_string(), "7".to_string());
    assert_eq!(p.id, PTR);
    assert_eq!(p.cid, LIT);
    assert_eq!(p.value, "x");
    assert_eq!(p.data_type, DT_NUM);
}

#[test]
fn meta_records_place() {
    let mut t = Token::newsb(REF, "x");
    t.meta(3, 7);
    assert_eq!(t.line, 3);
    assert_eq!(t.chara, 7);
}

#[test]
fn matchup_compares_kind_and_text() {
    let t = Token::newsb(SEP, ",");
    assert!(t.matchup(SEP, ","));
    assert!(!t.matchup(SEP, ";"));
    assert!(!t.matchup(REF, ","));
    assert!(t.matchupb(SEP, ",".to_string()));
}

#[test]
fn truth_of_tokens() {
    assert!(Token::news(LIT, "\"ab\"", BASE_TOKEN).bool());
    assert!(!Token::news(LIT, "\"\"", BASE_TOKEN).bool());
    assert!(Token::news(LIT, "0.5", BASE_TOKEN).bool());
    assert!(!Token::news(LIT, "0", BASE_TOKEN).bool());
    assert!(Token::news(LIT, "true", BASE_TOKEN).bool());
    assert!(!Token::news(LIT, "false", BASE_TOKEN).bool());
    let mut l = Token::news(LST, "L", LIST_TOKEN);
    assert!(!l.bool());
    l.push(Token::newsb(LIT, "1")).unwrap();
    assert!(l.bool());
}

#[test]
fn list_read_back_after_set() {
    let mut l = Token::news(LST, "L", LIST_TOKEN);
    l.push(Token::newsb(LIT, "1")).unwrap();
    l.push(Token::newsb(LIT, "2")).unwrap();
    l.set(1, Token::newsb(LIT, "9")).unwrap();
    assert_eq!(l.get(1).unwrap().value, "9");
    assert_eq!(l.get(0).unwrap().value, "1");
    assert_eq!(l.length, 2);
}

#[test]
fn list_push_then_pop_gives_it_back() {
    let mut l = Token::news(LST, "L", LIST_TOKEN);
    l.push(Token::newsb(LIT, "1")).unwrap();
    l.push(Token::newsb(REF, "y")).unwrap();
    let t = l.pop().unwrap();
    assert_eq!(t.value, "y");
    assert_eq!(l.length, 1);
    assert_eq!(l.list.as_ref().unwrap().len(), 1);
}

#[test]
fn list_errors() {
    let mut b = Token::newsb(LIT, "1");
    assert_eq!(b.push(Token::newsb(LIT, "2")), Err("invalid operation".to_string()));
    assert_eq!(b.get(0).map(|t| t.value), Err("invalid operation".to_string()));
    let mut l = Token::news(LST, "L", LIST_TOKEN);
    assert_eq!(l.pop().map(|t| t.value), Err("can't remove from empty list".to_string()));
    assert_eq!(l.get(0).map(|t| t.value), Err("index out of range".to_string()));
    assert_eq!(l.set(0, Token::newsb(LIT, "1")), Err("index out of range".to_string()));
    assert_eq!(l.popitem(0).map(|t| t.value), Err("index out of range".to_string()));
}

#[test]
fn list_popitem_and_extend() {
    let mut l = Token::news(LST, "L", LIST_TOKEN);
    l.extend(vec![Token::newsb(LIT, "1"), Token::newsb(LIT, "2"), Token::newsb(LIT, "3")]).unwrap();
    assert_eq!(l.length, 3);
    let t = l.popitem(1).unwrap();
    assert_eq!(t.value, "2");
    assert_eq!(l.length, 2);
    assert_eq!(l.get(1).unwrap().value, "3");
}

#[test]
fn dict_read_back_after_set() {
    let mut d = Token::news(DCT, "D", DICT_TOKEN);
    d.setd("a".to_string(), Token::newsb(LIT, "1")).unwrap();
    d.setd("b".to_string(), Token::newsb(LIT, "2")).unwrap();
    d.setd("a".to_string(), Token::newsb(LIT, "5")).unwrap();
    assert_eq!(d.getd("a".to_string()).unwrap().value, "5");
    assert_eq!(d.hasd("b"), Ok(true));
    assert_eq!(d.hasd("c"), Ok(false));
}

#[test]
fn dict_set_then_pop_gives_it_back() {
    let mut d = Token::news(DCT, "D", DICT_TOKEN);
    d.setd("k".to_string(), Token::newsb(REF, "v")).unwrap();
    assert_eq!(d._check_vkey_dict("k"), Ok(()));
    assert_eq!(d.popd("k".to_string()).unwrap().value, "v");
    assert_eq!(d.hasd("k"), Ok(false));
}

#[test]
fn dict_errors() {
    let d = Token::news(DCT, "D", DICT_TOKEN);
    assert_eq!(Token::newsb(LIT, "1")._check_vkey_dict("x"), Err("invalid operation".to_string()));
    assert_eq!(d.getd("x".to_string()).map(|t| t.value), Err("invalid key x".to_string()));
    let b = Token::newsb(LIT, "1");
    assert_eq!(b.hasd("x"), Err("invalid operation".to_string()));
    let mut b2 = Token::newsb(LIT, "1");
    assert_eq!(b2.setd("x".to_string(), Token::newsb(LIT, "2")), Err("invalid operation".to_string()));
}

#[test]
fn clone_keeps_contents() {
    let mut l = Token::news(LST, "L", LIST_TOKEN);
    l.push(Token::newsb(LIT, "1")).unwrap();
    let c = l.clone();
    assert_eq!(c.length, 1);
    assert_eq!(c.list.as_ref().unwrap()[0].value, "1");
    assert!(c == l);
}

#[test]
fn equality_is_kind_text_and_type() {
    let a = Token::newsb(LIT, "1");
    let mut b = Token::newsb(LIT, "1");
    b.meta(4, 4);
    assert!(a == b);
    assert!(a != Token::newsb(LIT, "2"));
    assert!(a != Token::newsb(REF, "1"));
}

#[test]
fn display_shows_kind_and_escaped_text() {
    let t = Token::newsb(FUN, "f\n");
    assert_eq!(t.display(), "(FUN, \"f\\n\")");
    assert_eq!(lang_1::statics::token_array(LIT), "LIT");
}
