use dupehound::fingerprint::intersection_size;
use dupehound::lang::Lang;
use dupehound::parse::analyze_source;

fn jaccard(a: &[u64], b: &[u64]) -> f64 {
    let shared = intersection_size(a, b);
    let union = a.len() + b.len() - shared;
    if union == 0 { 0.0 } else { shared as f64 / union as f64 }
}

const TS_PAIR: &str = r#"
export function formatPrice(value: number, currency: string): string {
const rounded = Math.round(value * 100) / 100;
const parts = rounded.toFixed(2).split(".");
const whole = parts[0].replace(/\B(?=(\d{3})+(?!\d))/g, ",");
if (currency === "USD") {
    return "$" + whole + "." + parts[1];
}
return whole + "." + parts[1] + " " + currency;
}

export function displayCurrency(amount: number, code: string): string {
const r = Math.round(amount * 100) / 100;
const pieces = r.toFixed(2).split(".");
const integer = pieces[0].replace(/\B(?=(\d{3})+(?!\d))/g, ",");
if (code === "EUR") {
    return "$" + integer + "." + pieces[1];
}
return integer + "." + pieces[1] + " " + code;
}
"#;

#[test]
fn extracts_typescript_functions_with_spans() {
    let fa = analyze_source(0, Lang::Typescript, TS_PAIR, 10, false).unwrap();
    assert_eq!(fa.functions.len(), 2);
    assert_eq!(fa.functions[0].name, "formatPrice");
    assert_eq!(fa.functions[1].name, "displayCurrency");
    assert_eq!(fa.functions[0].start_line, 2);
    assert!(fa.functions[0].sig_lines >= 8);
}

#[test]
fn renamed_clone_has_identical_fingerprints() {
    // The two functions differ only in identifiers and literals — a
    // textbook type-2 clone. Normalization must make them identical.
    let fa = analyze_source(0, Lang::Typescript, TS_PAIR, 10, false).unwrap();
    assert_eq!(fa.functions[0].fingerprints, fa.functions[1].fingerprints);
}

#[test]
fn different_logic_does_not_match() {
    let src = r#"
function sumEvens(xs: number[]): number {
let total = 0;
for (const x of xs) {
    if (x % 2 === 0) total += x;
}
return total;
}

function describeUser(user: { name: string; age: number }): string {
if (user.age >= 18) {
    return user.name + " is an adult";
}
const wait = 18 - user.age;
return user.name + " can vote in " + wait + " years";
}
"#;
    let fa = analyze_source(0, Lang::Typescript, src, 10, false).unwrap();
    assert_eq!(fa.functions.len(), 2);
    let j = jaccard(&fa.functions[0].fingerprints, &fa.functions[1].fingerprints);
    assert!(j < 0.3, "unrelated functions scored {j}");
}

#[test]
fn comments_do_not_affect_fingerprints() {
    let without = "function f(a: number) {\n  const b = a * 2;\n  const c = b + a * 7;\n  if (c > 10) { return c - b; }\n  return a + b + c;\n}";
    let with = "function f(a: number) {\n  // doubles the input\n  const b = a * 2;\n  /* magic */ const c = b + a * 7;\n  if (c > 10) { return c - b; }\n  return a + b + c; // done\n}";
    let fa1 = analyze_source(0, Lang::Typescript, without, 5, false).unwrap();
    let fa2 = analyze_source(0, Lang::Typescript, with, 5, false).unwrap();
    assert_eq!(fa1.functions[0].fingerprints, fa2.functions[0].fingerprints);
}

#[test]
fn rust_cfg_test_functions_are_flagged() {
    let src = "fn real_work(a: u32) -> u32 {\n    let b = a * 3;\n    let c = b + 11;\n    if c > 100 { return c - b; }\n    a + b + c\n}\n\n#[cfg(test)]\nmod tests {\n    fn helper_in_tests(a: u32) -> u32 {\n        let b = a * 5;\n        let c = b + 13;\n        if c > 50 { return c + b; }\n        a * b * c\n    }\n}\n";
    let fa = analyze_source(0, Lang::Rust, src, 5, false).unwrap();
    assert_eq!(fa.functions.len(), 2);
    assert!(!fa.functions[0].is_test);
    assert!(fa.functions[1].is_test);
}

#[test]
fn spans_fall_inside_the_source() {
    let fa = analyze_source(0, Lang::Typescript, TS_PAIR, 10, false).unwrap();
    for u in &fa.functions {
        assert!(1 <= u.start_line && u.start_line <= u.end_line);
        assert!(u.start_byte <= u.end_byte && (u.end_byte as usize) <= TS_PAIR.len());
    }
}

#[test]
fn languages_without_a_grammar_are_not_parsed() {
    assert!(analyze_source(0, Lang::Ruby, "def f\n  1\nend\n", 1, false).is_none());
}

#[test]
fn rust_trait_impl_methods_are_flagged() {
    let src = "impl std::fmt::Display for A {\n    fn fmt(&self, f: &mut Formatter) -> Result {\n        let b = self.a * 3;\n        let c = b + 11;\n        write!(f, \"{}\", c)\n    }\n}\n\nimpl A {\n    fn plain(&self) -> u32 {\n        let b = self.a * 3;\n        let c = b + 11;\n        b + c\n    }\n}\n";
    let fa = analyze_source(0, Lang::Rust, src, 5, false).unwrap();
    assert_eq!(fa.functions.len(), 2);
    assert!(fa.functions[0].is_trait_impl_method);
    assert!(!fa.functions[1].is_trait_impl_method);
}
