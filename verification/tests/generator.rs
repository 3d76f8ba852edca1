//! The code generator's configuration and command line.
use peakrdl_rust::generator::{Endian, Error, Generator};

fn strings(v: &[&str]) -> Vec<String> {
    v.iter().map(|s| s.to_string()).collect()
}

#[test]
fn new_generator_has_no_inputs() {
    let g = Generator::new();
    assert!(matches!(g.resolve_out_dir(Some("out".to_string())), Err(Error::NoInputs)));
}

#[test]
fn missing_top_is_reported_after_inputs() {
    let mut g = Generator::new();
    g.rdl_file("a.rdl");
    assert!(matches!(g.resolve_out_dir(Some("out".to_string())), Err(Error::NoTop)));
}

#[test]
fn missing_out_dir() {
    let mut g = Generator::new();
    g.rdl_file("a.rdl").top("a");
    assert!(matches!(g.resolve_out_dir(None), Err(Error::NoOutDir)));
    assert_eq!(g.resolve_out_dir(Some("env".to_string())).unwrap(), "env");
    g.out_dir("mine");
    assert_eq!(g.resolve_out_dir(Some("env".to_string())).unwrap(), "mine");
}

#[test]
fn minimal_command_line() {
    let mut g = Generator::new();
    g.rdl_file("src/regs/my_block.rdl").top("my_block");
    assert_eq!(
        g.command_args("out/my_block"),
        strings(&["--top", "my_block", "-o", "out/my_block", "--force", "src/regs/my_block.rdl"])
    );
}

#[test]
fn full_command_line() {
    let mut g = Generator::default();
    g.config_file("peakrdl.toml")
        .rdl_files(&["dep.rdl", "top.rdl"])
        .include_dir("inc")
        .proprocessor_macro("DEBUG", None)
        .proprocessor_macro("WIDTH", Some("32"))
        .parameter("N", "4")
        .top("top")
        .rename("chip")
        .overwrite_output(false)
        .format_output(true)
        .byte_endian(Endian::Big)
        .word_endian(Endian::Little);
    assert_eq!(g.top_name().unwrap(), "chip");
    assert_eq!(
        g.command_args("o/chip"),
        strings(&[
            "--peakrdl-cfg", "peakrdl.toml", "-I", "inc", "-D", "DEBUG", "-D", "WIDTH=32", "--top", "top",
            "--rename", "chip", "-D", "N=4", "-o", "o/chip", "--fmt", "--byte-endian", "big",
            "--word-endian", "little", "dep.rdl", "top.rdl",
        ])
    );
    assert_eq!(g.watched_paths(), strings(&["dep.rdl", "top.rdl", "peakrdl.toml", "inc"]));
}

#[test]
fn redefining_a_macro_replaces_it() {
    let mut g = Generator::new();
    g.rdl_file("x.rdl")
        .top("x")
        .proprocessor_macro("A", Some("1"))
        .proprocessor_macro("B", None)
        .proprocessor_macro("A", Some("2"))
        .parameter("P", "x")
        .parameter("P", "y");
    assert_eq!(
        g.command_args("d"),
        strings(&["-D", "A=2", "-D", "B", "--top", "x", "-D", "P=y", "-o", "d", "--force", "x.rdl"])
    );
}

#[test]
fn top_name_defaults_to_top() {
    let mut g = Generator::new();
    assert!(g.top_name().is_none());
    g.top("blk");
    assert_eq!(g.top_name().unwrap(), "blk");
    assert_eq!(g.watched_paths(), Vec::<String>::new());
}

#[test]
fn setting_a_parameter_or_top_again_replaces_it() {
    let mut once = Generator::new();
    once.rdl_file("a.rdl").top("b").parameter("N", "8");
    let mut twice = Generator::new();
    twice.rdl_file("a.rdl").top("a").parameter("N", "4").top("b").parameter("N", "8");
    assert_eq!(twice.command_args("o/b"), once.command_args("o/b"));
    assert_eq!(
        twice.command_args("o/b"),
        strings(&["--top", "b", "-D", "N=8", "-o", "o/b", "--force", "a.rdl"])
    );
}
