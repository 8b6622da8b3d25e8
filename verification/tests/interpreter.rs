use lang_1::parser::{file_tokens, Host, Parser};
use lang_1::tokenize::tokenize_checked;

/// A world made of strings: what is written is kept, input lines and files are given.
struct Script {
    out: String,
    inputs: Vec<String>,
    files: Vec<(String, String)>,
}

impl Host for Script {
    fn write(&mut self, text: &str) {
        self.out.push_str(text);
    }

    fn read_line(&mut self) -> Option<String> {
        if self.inputs.is_empty() {
            None
        } else {
            Some(self.inputs.remove(0))
        }
    }

    fn read_file(&mut self, name: &str) -> Option<String> {
        self.files.iter().find(|f| f.0 == name).map(|f| f.1.clone())
    }

    fn decimal(&mut self, op: char, a: &str, b: &str) -> Option<String> {
        let x: f64 = a.parse().ok()?;
        let y: f64 = b.parse().ok()?;
        let v = match op {
            '+' => x + y,
            '-' => x - y,
            '*' => x * y,
            '/' => x / y,
            _ => return None,
        };
        Some(v.to_string())
    }

    fn compare(&mut self, op: &str, a: &str, b: &str) -> Option<bool> {
        let x: f64 = a.parse().ok()?;
        let y: f64 = b.parse().ok()?;
        Some(match op {
            ">" => x > y,
            "<" => x < y,
            ">=" => x >= y,
            _ => x <= y,
        })
    }

    fn positive(&mut self, a: &str) -> Option<bool> {
        a.parse::<f64>().ok().map(|x| x > 0f64)
    }

    fn sum(&mut self, items: &Vec<String>) -> Option<String> {
        let mut s = 0f64;
        for t in items {
            s += t.parse::<f64>().ok()?;
        }
        Some(s.to_string())
    }

    fn number(&mut self, a: &str) -> Option<String> {
        a.parse::<f64>().ok().map(|x| x.to_string())
    }
}

const PRELUDE: &str = "'''\ninput\nREF prompt SEP * KEY return BND input PAR ( REF $prompt PAR )\n'''\nNumber\nREF value SEP * KEY return BND Number PAR ( REF $value PAR )\n'''\nsum\nREF list SEP * KEY return BND sum PAR ( REF $list PAR )\n'''";

fn run_with(src: &str, inputs: Vec<&str>, files: Vec<(&str, &str)>) -> (Result<u8, String>, String) {
    let lines: Vec<&str> = src.split('\n').collect();
    let tokens = tokenize_checked(lines).expect("the program tokenizes");
    let mut host = Script {
        out: String::new(),
        inputs: inputs.into_iter().map(|s| s.to_string()).collect(),
        files: files.into_iter().map(|(a, b)| (a.to_string(), b.to_string())).collect(),
    };
    let mut p = Parser::new(tokens);
    p.__init(&mut host).expect("the interpreter prepares");
    let r = p.run(&mut host);
    (r, host.out)
}

fn run(src: &str) -> (Result<u8, String>, String) {
    run_with(src, vec![], vec![])
}

#[test]
fn prints_a_sum() {
    assert_eq!(run("print 1 + 2;"), (Ok(0), "3\n".to_string()));
}

#[test]
fn prints_a_variable_product() {
    assert_eq!(run("x = 5;\nprint x * 2;"), (Ok(0), "10\n".to_string()));
}

#[test]
fn prints_strings_without_quotes() {
    assert_eq!(run("print \"hello\";"), (Ok(0), "hello\n".to_string()));
    assert_eq!(run("print \"ab\" + \"cd\";"), (Ok(0), "abcd\n".to_string()));
    assert_eq!(run("print \"ab\" * 3;"), (Ok(0), "ababab\n".to_string()));
}

#[test]
fn prints_values_separated() {
    assert_eq!(run("print 1, 2;"), (Ok(0), "1 2\n".to_string()));
    assert_eq!(run("#[print_sep_value=\"-\"]\n#[print_sep_spaces=2]\nprint 1, 2;"), (Ok(0), "1--2\n".to_string()));
    assert_eq!(run("#[terminating_newlines=2]\nprint 7;"), (Ok(0), "7\n\n".to_string()));
}

#[test]
fn integer_arithmetic() {
    assert_eq!(run("print 7 / 2;"), (Ok(0), "3\n".to_string()));
    assert_eq!(run("print 7 % 4;"), (Ok(0), "3\n".to_string()));
    assert_eq!(run("print 6 & 3;"), (Ok(0), "2\n".to_string()));
    assert_eq!(run("print 6 ^ 3;"), (Ok(0), "5\n".to_string()));
    assert_eq!(run("print 5 - 8;"), (Ok(0), "-3\n".to_string()));
}

#[test]
fn decimal_arithmetic_goes_to_the_host() {
    assert_eq!(run("print 1.5 + 1;"), (Ok(0), "2.5\n".to_string()));
}

#[test]
fn comparisons_and_logic() {
    assert_eq!(run("print 2 > 1;"), (Ok(0), "true\n".to_string()));
    assert_eq!(run("print 2 < 1;"), (Ok(0), "false\n".to_string()));
    assert_eq!(run("print true && false;"), (Ok(0), "false\n".to_string()));
    assert_eq!(run("print true || false;"), (Ok(0), "true\n".to_string()));
}

#[test]
fn mismatched_types_fail() {
    let (r, _) = run("print 1 + \"a\";");
    assert_eq!(r, Err("mismatched types".to_string()));
}

#[test]
fn division_by_zero_fails() {
    let (r, _) = run("print 1 / 0;");
    assert!(r.is_err());
}

#[test]
fn calls_a_function() {
    let src = "func add(a, b) {\nreturn $a + $b;\n}\nprint add(2, 3);";
    assert_eq!(run(src), (Ok(0), "5\n".to_string()));
}

#[test]
fn runs_a_for_loop() {
    let src = "x = 0;\nfor i in 0..3 {\nprint $i;\n}";
    assert_eq!(run(src), (Ok(0), "0\n1\n2\n".to_string()));
}

#[test]
fn runs_a_while_loop() {
    let src = "x = 0;\nwhile x < 3 {\nprint $x;\nx += 1;\n}";
    assert_eq!(run(src), (Ok(0), "0\n1\n2\n".to_string()));
}

#[test]
fn chooses_between_if_and_else() {
    let yes = "x = 1;\nif x > 0 {\nprint \"yes\";\n}\nelse {\nprint \"no\";\n}";
    assert_eq!(run(yes), (Ok(0), "yes\n".to_string()));
    let no = "x = 0;\nif x > 0 {\nprint \"yes\";\n}\nelse {\nprint \"no\";\n}";
    assert_eq!(run(no), (Ok(0), "no\n".to_string()));
}

#[test]
fn lists_have_members() {
    assert_eq!(run("l = $[1, 2, 3];\nprint l.length;"), (Ok(0), "3\n".to_string()));
    assert_eq!(run("l = $[1, 2];\nl.push(5);\nprint l.length;"), (Ok(0), "3\n".to_string()));
    assert_eq!(run("l = $[1, 2];\nprint l.get(1);"), (Ok(0), "2\n".to_string()));
}

#[test]
fn strings_have_members() {
    assert_eq!(run("print \"hello\".length;"), (Ok(0), "5\n".to_string()));
    assert_eq!(run("s = \"abc\";\nprint s.is_alpha();"), (Ok(0), "true\n".to_string()));
    assert_eq!(run("s = \"a1\";\nprint s.is_digit();"), (Ok(0), "false\n".to_string()));
}

#[test]
fn dictionaries_are_indexed() {
    assert_eq!(run("d = ${\"a\": 1};\nprint d[\"a\"];"), (Ok(0), "1\n".to_string()));
}

#[test]
fn lists_are_indexed_and_assigned() {
    assert_eq!(run("l = $[4, 5];\nprint l[1];"), (Ok(0), "5\n".to_string()));
}

#[test]
fn the_system_object_holds_colors() {
    let (r, out) = run("print System.red;");
    assert_eq!(r, Ok(0));
    assert_eq!(out, "\u{1b}[38;2;255;0;0m\n");
}

#[test]
fn halting_stops_with_a_message() {
    let (r, out) = run("print 1;\nHALT;\nprint 2;");
    assert_eq!(r, Err("HALTING EXECUTION".to_string()));
    assert!(out.starts_with("1\n"));
    assert!(out.contains("HALTING EXECUTION"));
}

#[test]
fn the_prelude_defines_input() {
    let (r, out) = run_with("name = input(\"Name? \");\nprint name;", vec!["Bob\n"], vec![("ihl.prelude", PRELUDE)]);
    assert_eq!(r, Ok(0));
    assert_eq!(out, "Name? \n\nBob\n");
}

#[test]
fn the_prelude_defines_number() {
    let (r, out) = run_with("print Number(\"42\") + 1;", vec![], vec![("ihl.prelude", PRELUDE)]);
    assert_eq!(r, Ok(0));
    assert_eq!(out, "43\n");
}

#[test]
fn reading_input_can_fail() {
    let (r, _) = run_with("name = input(\"Name? \");", vec![], vec![("ihl.prelude", PRELUDE)]);
    assert_eq!(r, Err("ERROR READING INPUT".to_string()));
}

#[test]
fn modules_are_loaded_from_files() {
    let (r, out) = run_with("module m;\nprint m;", vec![], vec![("m.ihl", "x = 7;")]);
    assert_eq!(r, Ok(0));
    assert_eq!(out, "m\n");
}

#[test]
fn linked_files_run_in_place() {
    let (r, out) = run_with("linkup lib;\nprint y;", vec![], vec![("lib.ihl", "y = 9;")]);
    assert_eq!(r, Ok(0));
    assert_eq!(out, "9\n");
}

#[test]
fn variables_can_be_removed() {
    assert_eq!(run("x = 1;\nrm x;\nprint x;"), (Ok(0), "UDF\n".to_string()));
}

#[test]
fn new_interpreter_starts_empty() {
    let p = Parser::new(vec![]);
    assert_eq!(p.modules.len(), 0);
    assert_eq!(p.memory.scope_count(), 1);
}

#[test]
fn source_text_is_split_into_lines() {
    let toks = file_tokens("x = 1;\nprint x;").expect("the text tokenizes");
    let direct = tokenize_checked(vec!["x = 1;", "print x;"]).expect("the lines tokenize");
    assert_eq!(toks.len(), direct.len());
    for (a, b) in toks.iter().zip(direct.iter()) {
        assert_eq!((a.id, a.value.clone()), (b.id, b.value.clone()));
    }
    assert!(file_tokens("print \"open;").is_err());
}

#[test]
fn operators_group_from_the_left() {
    assert_eq!(run("print 1 + 2 * 3;"), (Ok(0), "9\n".to_string()));
    assert_eq!(run("print 10 - 4 - 3;"), (Ok(0), "3\n".to_string()));
}

#[test]
fn assigned_values_are_read_back_through_references() {
    assert_eq!(run("x = 5;\nprint $x + 1;"), (Ok(0), "6\n".to_string()));
    assert_eq!(run("x = 2;\ny = $x * 3;\nprint $y;"), (Ok(0), "6\n".to_string()));
    assert_eq!(run("s = \"ab\";\nprint $s + \"c\";"), (Ok(0), "abc\n".to_string()));
}

#[test]
fn compound_assignments_combine_with_the_next_value() {
    assert_eq!(run("x = 5;\nx += 3;\nprint $x;"), (Ok(0), "8\n".to_string()));
    assert_eq!(run("x = 2;\nx *= $x;\nprint $x;"), (Ok(0), "4\n".to_string()));
}

#[test]
fn print_separates_its_values() {
    assert_eq!(run("x = 1;\nprint $x, $x + 1, \"z\";"), (Ok(0), "1 2 z\n".to_string()));
}

#[test]
fn memory_keywords_change_bindings() {
    assert_eq!(run("x = 1;\nrm x;\nprint $x;"), (Ok(0), "UDF\n".to_string()));
    assert_eq!(run("global x;\nx = 4;\nprint $x;"), (Ok(0), "4\n".to_string()));
    assert_eq!(run("x = 1;\ngarbage x;\nprint $x;"), (Ok(0), "UDF\n".to_string()));
}

#[test]
fn meta_settings_need_readable_values() {
    assert!(run("#[terminating_newlines=x]\nprint 7;").0.is_err());
    assert!(run("#[print_sep_value=-]\nprint 1, 2;").0.is_err());
    assert_eq!(run("#[print_sep_value=<ab>]\nprint 1, 2;"), (Ok(0), "1ab2\n".to_string()));
    assert_eq!(run("#[unknown_setting=3]\nprint 7;"), (Ok(0), "7\n".to_string()));
}

#[test]
fn descriptions_define_protected_functions() {
    let mut p = Parser::new(vec![]);
    assert_eq!(p.define_builtins(PRELUDE), Ok(()));
    let f = p.memory.get("Number");
    assert_eq!(f.value, "Number");
    assert_eq!(f.length, 7);
    assert_eq!(p.memory.find_gv("Number".to_string()), 1);
    assert_eq!(p.memory.find_gv("sum".to_string()), 1);
    let g = p.memory.get("input");
    assert_eq!(g.list.as_ref().map(|l| l.len()), Some(7));
}

#[test]
fn unreadable_descriptions_fail() {
    let mut p = Parser::new(vec![]);
    assert!(p.define_builtins("'''\nbad\nNOPE x\n'''").is_err());
    assert!(p.define_builtins("'''\nodd\nREF\n'''").is_err());
    assert_eq!(p.define_builtins("'''\nonly_a_name\n'''"), Ok(()));
    assert_eq!(p.memory.find_gv("only_a_name".to_string()), 0);
}

#[test]
fn a_block_that_ran_is_followed_by_the_rest() {
    let src = "x = 1;\nif $x > 0 {\nprint 1;\n}\nprint 2;\nprint 3;";
    assert_eq!(run(src), (Ok(0), "1\n2\n3\n".to_string()));
}

#[test]
fn a_block_whose_header_fails_is_passed_over() {
    let src = "x = 0;\nif $x > 0 {\nprint 1;\n}\nprint 2;";
    assert_eq!(run(src), (Ok(0), "2\n".to_string()));
}

#[test]
fn loops_run_their_body_in_a_scope_of_their_own() {
    assert_eq!(run("x = 0;\nfor i in 0..2 {\nprint $i;\n}\nprint 9;"), (Ok(0), "0\n1\n9\n".to_string()));
    assert_eq!(run("x = 0;\nwhile x < 2 {\nx += 1;\n}\nprint $x;"), (Ok(0), "2\n".to_string()));
}

#[test]
fn return_ends_the_run() {
    assert_eq!(run("x = 10;\nx -= 3;\nreturn x;\nprint 1;"), (Ok(0), String::new()));
}

#[test]
fn break_ends_a_loop() {
    assert_eq!(run("x = 0;\nfor i in 0..5 {\nprint $i;\nbreak;\n}"), (Ok(0), "0\n".to_string()));
}

#[test]
fn continue_ends_one_round() {
    assert_eq!(run("x = 0;\nfor i in 0..3 {\nprint $i;\ncontinue;\nprint 9;\n}"), (Ok(0), "0\n1\n2\n".to_string()));
}

#[test]
fn a_function_returns_an_expression() {
    assert_eq!(run("func f(a) {\nreturn a + 1;\n}\nprint f(2);"), (Ok(0), "3\n".to_string()));
}

#[test]
fn a_call_leaves_no_arguments_behind() {
    assert_eq!(run("func f(a) {\nreturn a * 2;\n}\nx = f(4);\nprint x;\nprint a;"), (Ok(0), "8\nUDF\n".to_string()));
}

#[test]
fn a_pushed_item_is_kept() {
    assert_eq!(run("l = $[1];\nl.push(4);\nprint l.get(1);"), (Ok(0), "4\n".to_string()));
}

#[test]
fn pop_gives_the_last_item() {
    assert_eq!(run("l = $[1, 2, 3];\nprint l.pop();\nprint l.length;"), (Ok(0), "3\n2\n".to_string()));
}

#[test]
fn a_loop_adds_its_counter() {
    assert_eq!(run("s = 0;\nfor i in 0..4 {\ns += i;\n}\nprint s;"), (Ok(0), "6\n".to_string()));
}


#[test]
fn a_number_becomes_a_string() {
    assert_eq!(run("n = 5;\nprint n.to_string() + \"a\";"), (Ok(0), "5a\n".to_string()));
}

#[test]
fn a_called_function_prints() {
    assert_eq!(run("func f(a) {\nprint a * 3;\n}\nf(3);\nprint 1;"), (Ok(0), "9\n1\n".to_string()));
}

#[test]
fn missing_arguments_are_undefined() {
    assert_eq!(run("func f(a, b) {\nprint b;\n}\nf(1);"), (Ok(0), "UDF\n".to_string()));
    assert_eq!(run("func g(a) {\nprint a;\n}\ng(1, 2);"), (Ok(0), "1\n".to_string()));
}

#[test]
fn a_call_value_is_assigned() {
    assert_eq!(run("func sq(a) {\nreturn a * $a;\n}\ny = sq(5);\nprint y;"), (Ok(0), "25\n".to_string()));
}
