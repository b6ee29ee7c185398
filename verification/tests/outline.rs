use lector::outline::{
    extract_c_like, extract_go, extract_outline, extract_python, extract_rust, outline_for_path,
    CodeLanguage, OutlineEntry,
};

fn names(entries: &[OutlineEntry]) -> Vec<&str> {
    entries.iter().map(|e| e.name.as_str()).collect()
}

#[test]
fn detects_language_from_extension() {
    assert_eq!(CodeLanguage::from_path("a.rs"), Some(CodeLanguage::Rust));
    assert_eq!(CodeLanguage::from_path("a.cpp"), Some(CodeLanguage::Cpp));
    assert_eq!(CodeLanguage::from_path("a.txt"), None);
}

#[test]
fn rust_outline() {
    let src = "\
pub struct Foo {
    x: i32,
}

impl Foo {
    pub fn new() -> Self { Foo { x: 0 } }
    async fn run(&self) {}
}

pub const MAX: usize = 10;
const fn helper() {}
enum E { A, B }
trait T {}
mod inner {}
macro_rules! mac { () => {} }
";
    let out = extract_rust(src);
    let n = names(&out);
    assert!(n.contains(&"Foo"));
    assert!(n.contains(&"impl Foo"));
    assert!(n.contains(&"new"));
    assert!(n.contains(&"run"));
    assert!(n.contains(&"MAX"));
    assert!(n.contains(&"helper"));
    assert!(n.contains(&"E"));
    assert!(n.contains(&"T"));
    assert!(n.contains(&"inner"));
    assert!(n.contains(&"mac!"));
    // Methods inside impl are nested deeper than the impl block.
    let new_entry = out.iter().find(|e| e.name == "new").unwrap();
    assert!(new_entry.level >= 2);
}

#[test]
fn go_outline() {
    let src = "\
package main

type Point struct{}

func main() {}

func (p Point) Move() {}
";
    let out = extract_go(src);
    let n = names(&out);
    assert!(n.contains(&"Point"));
    assert!(n.contains(&"main"));
    assert!(n.contains(&"Move"));
}

#[test]
fn python_outline() {
    let src = "\
class Animal:
    def __init__(self):
        pass

    async def speak(self):
        pass

def top_level():
    pass
";
    let out = extract_python(src);
    let n = names(&out);
    assert!(n.contains(&"Animal"));
    assert!(n.contains(&"__init__"));
    assert!(n.contains(&"speak"));
    assert!(n.contains(&"top_level"));
    let init = out.iter().find(|e| e.name == "__init__").unwrap();
    assert!(init.level >= 2);
}

#[test]
fn c_outline() {
    let src = "\
struct Point { int x; };

int add(int a, int b) {
    return a + b;
}

void noop(void);

int main(void) {
    if (x) { }
    return 0;
}
";
    let out = extract_c_like(src);
    let n = names(&out);
    assert!(n.contains(&"Point"));
    assert!(n.contains(&"add"));
    assert!(n.contains(&"main"));
    // Declaration (ends with ;) and control flow must not be picked up.
    assert!(!n.contains(&"noop"));
    assert!(!n.contains(&"if"));
}

#[test]
fn outline_entries_carry_line_numbers_and_levels() {
    let src = "fn a() {}\n\n    fn b() {}\n\t\t\t\t\t\tfn deep() {}\n";
    let out = extract_rust(src);
    assert_eq!(out.len(), 3);
    assert_eq!((out[0].name.as_str(), out[0].level, out[0].line), ("a", 1, 1));
    assert_eq!((out[1].name.as_str(), out[1].level, out[1].line), ("b", 2, 3));
    // Indentation deeper than five levels is capped at level 6.
    assert_eq!((out[2].name.as_str(), out[2].level, out[2].line), ("deep", 6, 4));
}

#[test]
fn rust_visibility_and_modifiers() {
    let src = "pub unsafe extern \"C\" fn ffi() {}\npub static mut COUNTER: u32 = 0;\nimpl<T>   Trait for   Wrapper<T> where T: Copy {}\n// fn commented() {}\npub(crate) fn restricted() {}\n";
    let n: Vec<String> = extract_rust(src).into_iter().map(|e| e.name).collect();
    assert_eq!(
        n,
        vec![
            "ffi".to_string(),
            "COUNTER".to_string(),
            "impl <T> Trait for Wrapper<T>".to_string(),
            "restricted".to_string(),
        ]
    );
}

#[test]
fn c_function_rules() {
    let src = "static int helper(void) {\nreturn_value(x) {\n    while (x) {\n~Widget() {\nclass final Thing {\n#define X(a) {\n";
    let n: Vec<String> = extract_c_like(src).into_iter().map(|e| e.name).collect();
    assert_eq!(n, vec!["helper".to_string(), "Thing".to_string()]);
}

#[test]
fn crlf_lines_are_split_like_str_lines() {
    let src = "def a():\r\n    pass\r\nclass B:\r\n";
    let out = extract_python(src);
    assert_eq!(names(&out), vec!["a", "B"]);
    assert_eq!(out[1].line, 3);
}

#[test]
fn outline_for_unknown_path_is_empty() {
    assert!(outline_for_path("notes.txt", "fn a() {}").is_empty());
    assert_eq!(outline_for_path("lib.rs", "fn a() {}").len(), 1);
    assert_eq!(extract_outline("func F() {}", CodeLanguage::Go)[0].name, "F");
    assert_eq!(CodeLanguage::from_extension(Some("h++")), Some(CodeLanguage::Cpp));
    assert_eq!(CodeLanguage::from_extension(None), None);
}

#[test]
fn restricted_visibility_is_stripped() {
    let entries = extract_rust("pub(crate) fn helper() {}\npub(super) struct S;\npub (crate) enum E {}\n");
    let names: Vec<&str> = entries.iter().map(|e| e.name.as_str()).collect();
    assert_eq!(names, vec!["helper", "S", "E"]);
    assert_eq!(entries[0], OutlineEntry { level: 1, name: "helper".to_string(), line: 1 });
}

#[test]
fn impl_display_stops_at_a_where_clause() {
    let entries = extract_rust("impl<T> Display for Wrapper<T> where\n    T: Copy\n{\n}\nimpl Nowhere for X\twhere T: A {}\n");
    let names: Vec<&str> = entries.iter().map(|e| e.name.as_str()).collect();
    assert_eq!(names, vec!["impl <T> Display for Wrapper<T>", "impl Nowhere for X"]);
}
