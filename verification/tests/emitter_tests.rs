use minicc::ast::{ASTNode, CompileError};
use minicc::decimal::{i128_dec, i64_dec, u128_dec, u64_dec};
use minicc::generation::{genASm, CodeGenContext, EmitError};
use minicc::lexer::Lexer;
use minicc::parser::Parser;

fn parse_src(src: &str) -> ASTNode {
    let lexer = Lexer::new(src);
    let mut parser = Parser::new(lexer).expect("scanning the first token failed");
    match parser.parse() {
        Ok(ast) => ast,
        Err(e) => panic!("parsing failed: {:?}", e),
    }
}

fn compile(src: &str) -> Result<String, EmitError> {
    let ast = parse_src(src);
    let mut ctx = CodeGenContext::new();
    genASm(&ast, &mut ctx)
}

fn assert_in_order(haystack: &str, needles: &[&str]) {
    let mut from = 0usize;
    for needle in needles {
        match haystack[from..].find(needle) {
            Some(i) => from = from + i + needle.len(),
            None => panic!(
                "expected {:?} (in order) in:\n{}",
                needle, haystack
            ),
        }
    }
}

#[test]
fn return_constant_shape() {
    let out = compile("int main() { return 2; }").unwrap();
    assert_in_order(
        &out,
        &[
            ".global main",
            "main:",
            "pushq %rbp",
            "movq $2, %rax",
            "movq %rbp, %rsp",
            "popq %rbp",
            "ret",
        ],
    );
}

#[test]
fn inner_multiplication_is_emitted_before_the_addition() {
    let out = compile("int main() { return 1 + 2 * 3; }").unwrap();
    let mul = out.find("imulq %rcx, %rax").expect("no multiplication emitted");
    let plus = out.find("addq %rcx, %rax").expect("no addition emitted");
    assert!(mul < plus);
    assert_in_order(
        &out,
        &["pushq %rax", "pushq %rax", "popq %rcx", "imulq", "popq %rcx", "addq"],
    );
}

#[test]
fn declaration_allocates_stores_and_loads() {
    let out = compile("int main() { int a = 5; return a; }").unwrap();
    assert_in_order(
        &out,
        &[
            "subq $8, %rsp",
            "movq $5, %rax",
            "movq %rax, -8(%rbp)",
            "movq -8(%rbp), %rax",
        ],
    );
}

#[test]
fn short_circuit_or_layout() {
    let out = compile("int main() { return 1 || 0; }").unwrap();
    assert_eq!(out.matches("testq %rax, %rax").count(), 2);
    assert_eq!(out.matches("jnz .short_circuit_1").count(), 2);
    assert_in_order(
        &out,
        &[
            "movq $0, %rax",
            "jmp .end_2",
            ".short_circuit_1:",
            "movq $1, %rax",
            ".end_2:",
        ],
    );
}

#[test]
fn short_circuit_and_layout() {
    let out = compile("int main() { return 1 && 0; }").unwrap();
    assert_eq!(out.matches("jz .short_circuit_1").count(), 2);
    assert_in_order(
        &out,
        &[
            "movq $1, %rax",
            "jmp .end_2",
            ".short_circuit_1:",
            "movq $0, %rax",
            ".end_2:",
        ],
    );
}

#[test]
fn unary_chain_is_emitted_inside_out() {
    let out = compile("int main() { return -(~3); }").unwrap();
    assert_in_order(&out, &["movq $3, %rax", "not %rax", "neg %rax"]);
}

#[test]
fn unbound_variable_fails_with_its_name() {
    let err = compile("int main() { return a; }").unwrap_err();
    assert_eq!(err.name, "a");
}

#[test]
fn assignment_to_fresh_name_allocates_a_slot() {
    let out = compile("int main() { b = 3; return b; }").unwrap();
    assert_in_order(
        &out,
        &["movq $3, %rax", "subq $8, %rsp", "movq %rax, -8(%rbp)", "movq -8(%rbp), %rax"],
    );
}

#[test]
fn assignment_to_bound_name_reuses_the_slot() {
    let out = compile("int main() { int a; a = 7; return a; }").unwrap();
    assert_eq!(out.matches("subq $8, %rsp").count(), 1);
    assert_in_order(&out, &["movq $7, %rax", "movq %rax, -8(%rbp)"]);
}

#[test]
fn second_variable_gets_the_next_slot() {
    let out = compile("int main() { int a = 1; int b = 2; return b; }").unwrap();
    assert_in_order(&out, &["movq %rax, -8(%rbp)", "movq %rax, -16(%rbp)", "movq -16(%rbp), %rax"]);
}

#[test]
fn division_emits_the_fixed_sequence() {
    let out = compile("int main() { return 6 / 2; }").unwrap();
    assert_in_order(&out, &["movq $0, %rdx", "idiv %rcx"]);
}

#[test]
fn comparison_emits_setcc() {
    let out = compile("int main() { return 1 < 2; }").unwrap();
    assert_in_order(&out, &["cmpq %rcx, %rax", "setl %al", "movzbq %al, %rax"]);
}

#[test]
fn each_function_gets_one_global_directive() {
    let out = compile("int one() { return 1; } int two() { return 2; }").unwrap();
    assert_eq!(out.matches(".global ").count(), 2);
    assert_in_order(&out, &[".global one", "one:", "ret", ".global two", "two:", "ret"]);
}

#[test]
fn every_function_ends_with_ret() {
    let out = compile("int one() { return 1; } int two() { return 2; }").unwrap();
    let last_nonempty = out.lines().filter(|l| !l.is_empty()).last().unwrap();
    assert_eq!(last_nonempty, "ret");
    assert!(out.ends_with("\nret\n"));
}

#[test]
fn label_counter_runs_on_across_functions() {
    let out =
        compile("int one() { return 1 || 0; } int two() { return 1 && 1; }").unwrap();
    assert_in_order(&out, &[".short_circuit_1:", ".end_2:", ".short_circuit_3:", ".end_4:"]);
}

#[test]
fn nested_short_circuits_get_disjoint_labels() {
    let out = compile("int main() { return (1 && 0) || 1; }").unwrap();
    assert_in_order(&out, &[".short_circuit_1:", ".end_2:", ".short_circuit_3:", ".end_4:"]);
    assert_eq!(out.matches(".short_circuit_1:").count(), 1);
    assert_eq!(out.matches(".end_2:").count(), 1);
}

#[test]
fn negative_constants_render_with_a_sign() {
    let out = compile("int main() { return -9223372036854775807; }").unwrap();
    assert!(out.contains("movq $9223372036854775807, %rax"));
    assert!(out.contains("neg %rax"));
}

#[test]
fn empty_program_emits_nothing() {
    let out = compile("").unwrap();
    assert_eq!(out, "");
}

#[test]
fn emission_is_deterministic_from_a_shared_counter_base() {
    let src = "int main() { int a = 1 || 0; return a && 1; }";
    let ast1 = parse_src(src);
    let ast2 = parse_src(src);
    let mut c1 = CodeGenContext::new();
    let mut c2 = CodeGenContext::new();
    let out1 = genASm(&ast1, &mut c1).unwrap();
    let out2 = genASm(&ast2, &mut c2).unwrap();
    assert_eq!(out1, out2);
}

#[test]
fn context_allocates_downward_in_eights() {
    let mut ctx = CodeGenContext::new();
    assert_eq!(ctx.allocate_var("a"), -8);
    assert_eq!(ctx.allocate_var("b"), -16);
    assert_eq!(ctx.get_var_offset("a"), -8);
    assert_eq!(ctx.get_var_offset("b"), -16);
    assert_eq!(ctx.get_var_exist("a"), 1);
    assert_eq!(ctx.get_var_exist("c"), 0);
}

#[test]
fn entering_a_function_resets_the_per_function_state() {
    let mut ctx = CodeGenContext::new();
    ctx.allocate_var("a");
    ctx.enter_function();
    assert_eq!(ctx.get_var_exist("a"), 0);
    assert_eq!(ctx.allocate_var("b"), -8);
    ctx.exit_function();
    assert_eq!(ctx.allocate_var("c"), -8);
}

#[test]
fn redeclaration_shadows_the_earlier_slot() {
    let mut ctx = CodeGenContext::new();
    assert_eq!(ctx.allocate_var("a"), -8);
    assert_eq!(ctx.allocate_var("a"), -16);
    assert_eq!(ctx.get_var_offset("a"), -16);
}

#[test]
fn decimal_renderings() {
    assert_eq!(u64_dec(0), "0");
    assert_eq!(u64_dec(10), "10");
    assert_eq!(u64_dec(u64::MAX), "18446744073709551615");
    assert_eq!(i64_dec(-42), "-42");
    assert_eq!(i64_dec(0), "0");
    assert_eq!(i64_dec(i64::MIN), "-9223372036854775808");
    assert_eq!(u128_dec(12345678901234567890), "12345678901234567890");
    assert_eq!(i128_dec(-16), "-16");
}
