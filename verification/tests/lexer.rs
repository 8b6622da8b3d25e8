use lang_1::statics::{Token, KEY, LIT, MAT, NLN, REF, ASS, LST, DCT, IDX, FUN, OBJ, MET, CTL, SEP, GRP, PAR, DOT, LIST_TOKEN, BASE_TOKEN};
use lang_1::tokenize::{get_complement_surround, get_containing, get_number, get_word, get_meta, scan_line};
use lang_1::tokenize::{tokenize, tokenize_checked, preprocess, preprocess_checked};

fn chars(s: &str) -> Vec<char> {
    s.chars().collect()
}

fn ids(ts: &Vec<Token>) -> Vec<u8> {
    ts.iter().map(|t| t.id).collect()
}

#[test]
fn complements_of_surrounds() {
    assert_eq!(get_complement_surround('('), ')');
    assert_eq!(get_complement_surround(']'), '[');
    assert_eq!(get_complement_surround('"'), '"');
    assert_eq!(get_complement_surround('{'), '}');
}

#[test]
fn containing_reads_to_the_unescaped_close() {
    assert_eq!(get_containing(0, '"', '"', &chars("\"ab\" x")), (3, "\"ab\"".to_string()));
    assert_eq!(get_containing(0, '"', '"', &chars("\"a\\\"b\"")), (5, "\"a\\\"b\"".to_string()));
}

#[test]
fn numbers_stop_where_they_end() {
    assert_eq!(get_number(0, &chars("12.5+")), (4, "12.5".to_string()));
    assert_eq!(get_number(0, &chars("0x1f ")), (4, "0x1f".to_string()));
    assert_eq!(get_number(0, &chars("3..4")), (1, "3".to_string()));
    assert_eq!(get_number(2, &chars("a 77")), (4, "77".to_string()));
}

#[test]
fn words_give_their_last_position() {
    assert_eq!(get_word(0, &chars("abc def")), (2, "abc".to_string()));
    assert_eq!(get_word(4, &chars("abc def")), (7, "def".to_string()));
    assert_eq!(get_word(0, &chars("a_1(")), (2, "a_1".to_string()));
}

#[test]
fn meta_lines_give_name_and_value() {
    let (end, name, value) = get_meta(0, &chars("#[sep=, ]"));
    assert_eq!(name, "sep");
    assert_eq!(value, ", ");
    assert_eq!(end, 9);
    let (_, n2, v2) = get_meta(0, &chars("#[a==b]"));
    assert_eq!(n2, "a");
    assert_eq!(v2, "b");
}

#[test]
fn scanning_a_statement() {
    let w = scan_line(&chars("print 1 + 2;")).unwrap();
    let expect: Vec<(usize, String)> = vec![
        (4, "print".to_string()),
        (6, "1".to_string()),
        (8, "+".to_string()),
        (10, "2".to_string()),
        (11, ";".to_string()),
    ];
    assert_eq!(w, expect);
}

#[test]
fn scanning_stops_at_comments() {
    let w = scan_line(&chars("x // note")).unwrap();
    assert_eq!(w, vec![(0, "x".to_string())]);
}

#[test]
fn scanning_compound_operators_and_references() {
    let w = scan_line(&chars("a += $b && c")).unwrap();
    let texts: Vec<String> = w.into_iter().map(|x| x.1).collect();
    assert_eq!(texts, vec!["a", "+=", "$b", "&&", "c"]);
}

#[test]
fn scanning_fails_on_open_string() {
    assert!(scan_line(&chars("\"open")).is_none());
    assert!(scan_line(&chars("x +")).is_none());
}

#[test]
fn tokenizing_a_statement() {
    let t = tokenize(vec!["print 1 + 2;"]);
    assert_eq!(ids(&t), vec![KEY, LIT, MAT, LIT, NLN]);
    assert_eq!(t[0].value, "print");
    assert_eq!(t[0].line, 1);
    assert_eq!(t[0].chara, 5);
    assert_eq!(t[3].chara, 11);
}

#[test]
fn tokenizing_meta_lines() {
    let t = tokenize(vec!["#[terminating_newlines=2]", "x = 1;"]);
    assert_eq!(t[0].id, MET);
    assert_eq!(t[0].value, "terminating_newlines");
    assert_eq!(t[1].id, LIT);
    assert_eq!(t[1].value, "2");
    assert_eq!(ids(&t)[2..].to_vec(), vec![REF, ASS, LIT, NLN]);
}

#[test]
fn tokenizing_a_list_literal() {
    let t = tokenize(vec!["l = $[1, 2];"]);
    assert_eq!(ids(&t), vec![REF, ASS, LST, NLN]);
    let l = &t[2];
    assert_eq!(l.length, 2);
    let items: Vec<String> = l.list.as_ref().unwrap().iter().map(|x| x.value.clone()).collect();
    assert_eq!(items, vec!["1", "2"]);
}

#[test]
fn tokenizing_a_dict_literal() {
    let t = tokenize(vec!["d = ${\"a\": 1};"]);
    assert_eq!(ids(&t), vec![REF, ASS, DCT, NLN]);
    assert_eq!(t[2].getd("\"a\"".to_string()).unwrap().value, "1");
}

#[test]
fn tokenizing_an_index() {
    let t = tokenize(vec!["x[0];"]);
    assert_eq!(ids(&t), vec![REF, IDX, NLN]);
    assert_eq!(t[1].list.as_ref().unwrap()[0].value, "0");
}

#[test]
fn tokenizing_a_function() {
    let t = tokenize(vec!["func f(a) {", "return $a;", "}"]);
    assert_eq!(ids(&t), vec![FUN]);
    assert_eq!(t[0].value, "f");
    assert_eq!(t[0].length, 2);
    let body: Vec<String> = t[0].list.as_ref().unwrap().iter().map(|x| x.value.clone()).collect();
    assert_eq!(body, vec!["a", "*", "return", "$a", ";"]);
}

#[test]
fn tokenizing_if_and_else() {
    let t = tokenize(vec!["x = 1;", "if x > 0 {", "print 1;", "}", "else {", "print 2;", "}"]);
    assert_eq!(ids(&t), vec![REF, ASS, LIT, NLN, CTL, NLN, CTL, NLN]);
    assert_eq!(t[4].value, "ifblock");
    assert_eq!(t[6].value, "elseblock");
    let header: Vec<u8> = t[4].list.as_ref().unwrap().iter().map(|x| x.id).collect();
    assert_eq!(header, vec![REF, lang_1::statics::LOG, LIT, SEP, KEY, LIT, NLN]);
}

#[test]
fn tokenizing_a_for_loop_header() {
    let t = tokenize(vec!["x = 0;", "for i in 0..3 {", "print $i;", "}"]);
    assert_eq!(t[4].value, "forloop");
    let l: Vec<String> = t[4].list.as_ref().unwrap().iter().map(|x| x.value.clone()).collect();
    assert_eq!(l, vec!["i", "*", "0", "..", "3", "*", "print", "$i", ";"]);
}

#[test]
fn a_loop_cannot_open_the_program() {
    assert!(tokenize_checked(vec!["for i in 0..3 {", "}"]).is_none());
    assert!(tokenize_checked(vec!["print \"open;"]).is_none());
}

#[test]
fn tokenizing_a_class() {
    let t = tokenize(vec!["class P {", "property n = 5;", "method get() {", "return 1;", "}", "}"]);
    assert_eq!(ids(&t), vec![KEY, OBJ]);
    let o = &t[1];
    assert_eq!(o.value, "P");
    assert_eq!(o.getd("get".to_string()).unwrap().id, FUN);
    let props = o.getd("\"props".to_string()).unwrap();
    let p0 = &props.list.as_ref().unwrap()[0];
    assert_eq!(p0.value, "n");
    assert_eq!(p0.list.as_ref().unwrap()[0].value, "5");
    let inh = o.getd("\"class inheritance".to_string()).unwrap();
    assert_eq!(inh.length, 0);
}

#[test]
fn preprocessing_plain_tokens_keeps_them() {
    let toks = vec![Token::newsb(REF, "x"), Token::newsb(ASS, "="), Token::newsb(LIT, "1"), Token::newsb(NLN, ";")];
    let p = preprocess(toks.clone());
    assert_eq!(p.len(), 4);
    for k in 0..4 {
        assert!(p[k] == toks[k]);
    }
}

#[test]
fn preprocessing_drops_stray_groups_and_fails_on_open_ones() {
    let toks = vec![Token::newsb(GRP, "}"), Token::newsb(REF, "x")];
    let p = preprocess(toks);
    assert_eq!(ids(&p), vec![REF]);
    let open = vec![Token::newsb(GRP, "["), Token::newsb(LIT, "1")];
    assert!(preprocess_checked(open).is_none());
    let dots = vec![Token::newsb(DOT, "."), Token::newsb(PAR, "("), Token::news(LST, "L", LIST_TOKEN), Token::news(LIT, "2", BASE_TOKEN)];
    assert_eq!(ids(&preprocess(dots)), vec![DOT, PAR, LST, LIT]);
}
