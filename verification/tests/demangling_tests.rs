use symmem::demangling::{cpp_demangle_or_id, Demangling, Project};
use symmem::value::BitVal;

fn project_of(names: &[&str]) -> Project {
    Project::from_source_file_names(names.iter().map(|s| s.to_string()).collect())
}

#[test]
fn autodetect() {
    // A project from a single C file
    let c_proj = project_of(&["basic.c"]);
    assert_eq!(Demangling::autodetect(&c_proj), Demangling::NoDemangling);

    // A project from a single C++ file
    let cpp_proj = project_of(&["throwcatch.cpp"]);
    assert_eq!(Demangling::autodetect(&cpp_proj), Demangling::CPP);

    // A project from a single Rust file; bitcode generated by rustc records a
    // source name ending in "cgu.0" rather than ".rs"
    let rust_proj = project_of(&["panic.3a1fbbbh-cgu.0"]);
    assert_eq!(Demangling::autodetect(&rust_proj), Demangling::Rust);

    // A project containing multiple C files
    let c_proj = project_of(&["basic.c", "call.c", "globals.c", "simd.c"]);
    assert_eq!(Demangling::autodetect(&c_proj), Demangling::NoDemangling);

    // A project containing both C and Rust files
    let c_rust_proj = project_of(&["basic.c", "call.c", "panic.3a1fbbbh-cgu.0"]);
    assert_eq!(Demangling::autodetect(&c_rust_proj), Demangling::Rust);

    // A project containing both C and C++ files
    let c_cpp_proj = project_of(&["basic.c", "call.c", "throwcatch.cpp"]);
    assert_eq!(Demangling::autodetect(&c_cpp_proj), Demangling::CPP);
}

#[test]
fn autodetect_rs_source_and_empty() {
    // A plain ".rs" source name picks Rust demangling
    let rust_proj = project_of(&["lib.rs"]);
    assert_eq!(Demangling::autodetect(&rust_proj), Demangling::Rust);

    // Rust wins over C++ when both appear
    let both = project_of(&["helper.cpp", "main.rs"]);
    assert_eq!(Demangling::autodetect(&both), Demangling::Rust);

    // Nothing to go by: no demangling
    let empty = project_of(&[]);
    assert_eq!(Demangling::autodetect(&empty), Demangling::NoDemangling);
}

#[test]
fn cpp_demangling_applies() {
    // An Itanium-mangled C++ name demangles, with parameters suppressed
    assert_eq!(cpp_demangle_or_id("_ZN5space3fooEibc"), "space::foo");

    // A name that is no C++ symbol passes through unchanged
    assert_eq!(cpp_demangle_or_id("main"), "main");

    assert_eq!(
        Demangling::CPP.maybe_demangle("_ZN5space3fooEibc"),
        "space::foo"
    );
}

#[test]
fn rust_demangling_applies() {
    // A legacy-mangled Rust name demangles, with the trailing hash removed
    assert_eq!(
        Demangling::Rust.maybe_demangle("_ZN3std2io4Read11read_to_end17hb85a0f6802e14499E"),
        "std::io::Read::read_to_end"
    );

    // A name that is no Rust symbol passes through unchanged
    assert_eq!(Demangling::Rust.maybe_demangle("main"), "main");
}

#[test]
fn no_demangling_is_identity() {
    assert_eq!(
        Demangling::NoDemangling.maybe_demangle("_ZN5space3fooEibc"),
        "_ZN5space3fooEibc"
    );
}

#[test]
fn bitval_ops_behave() {
    // from_u64 and as_u64 are mutually inverse on 64-bit values
    let v = BitVal::from_u64(0x1234_5678_9abc_def0, 64);
    assert_eq!(v.as_u64(), Some(0x1234_5678_9abc_def0));

    // a narrow width keeps the value modulo the width
    let v = BitVal::from_u64(0x1ff, 8);
    assert_eq!(v.as_u64(), Some(0xff));

    // slicing picks the byte
    let v = BitVal::from_u64(0xabcd, 16);
    assert_eq!(v.slice(15, 8).as_u64(), Some(0xab));
    assert_eq!(v.slice(7, 0).as_u64(), Some(0xcd));

    // concatenation puts the receiver on top
    let hi = BitVal::from_u64(0xab, 8);
    let lo = BitVal::from_u64(0xcd, 8);
    assert_eq!(hi.concat(&lo).as_u64(), Some(0xabcd));

    // shifts move bits and fill with known zeros
    let one = BitVal::from_u64(1, 64);
    assert_eq!(one.sll(&BitVal::from_u64(4, 64)).as_u64(), Some(16));
    assert_eq!(
        BitVal::from_u64(0xf0, 64)
            .srl(&BitVal::from_u64(4, 64))
            .as_u64(),
        Some(0xf)
    );

    // addition wraps at the width
    let max = BitVal::from_u64(u64::MAX, 64);
    assert_eq!(max.add(&BitVal::from_u64(1, 64)).as_u64(), Some(0));

    // an unknown operand poisons the result
    let unknown = BitVal::unconstrained(64);
    assert_eq!(one.add(&unknown).as_u64(), None);

    // masking: and with ones keeps, or with ones sets
    let ones = BitVal::ones(8);
    let x = BitVal::from_u64(0x5a, 8);
    assert_eq!(x.and(&ones).as_u64(), Some(0x5a));
    assert_eq!(x.or(&ones).as_u64(), Some(0xff));
    assert_eq!(x.not().as_u64(), Some(0xa5));

    // zero extension keeps the value
    assert_eq!(x.uext(8).as_u64(), Some(0x5a));
    assert_eq!(x.uext(8).width(), 16);
}
