//! Demangling of C++ and Rust symbol names, and a guess at which scheme a
//! set of module source files calls for: Rust sources pick the Rust
//! demangler, C++ sources the C++ one, anything else none at all.

use vstd::prelude::*;
use vstd::utf8::encode_utf8;

verus! {

/// Which demangler to run over function names.
#[derive(PartialEq, Eq, Clone, Copy, Debug)]
pub enum Demangling {
    /// Don't try to demangle.
    NoDemangling,
    /// Try the C++ demangler; names that fail to demangle pass through.
    CPP,
    /// Try the Rust demangler; names that fail to demangle pass through.
    Rust,
}

/// What the C++ demangler makes of a name, with parameters suppressed:
/// `None` where the name is not a valid C++ mangled symbol.
pub uninterp spec fn cpp_demangled(name: Seq<char>) -> Option<Seq<char>>;

/// What the Rust demangler makes of a name, rendered without the trailing
/// hash; a name that is not a valid Rust mangled symbol passes through
/// unchanged.
pub uninterp spec fn rust_demangled(name: Seq<char>) -> Seq<char>;

/// Relies on cpp_demangle: `Symbol::new` parses an Itanium-mangled name and
/// `demangle` renders it, here without function parameters. The result is a
/// function of the name alone.
#[verifier::external_body]
pub(crate) fn try_cpp_demangle(funcname: &str) -> (r: Option<String>)
    ensures
        match r {
            Some(s) => cpp_demangled(funcname@) == Some(s@),
            None => cpp_demangled(funcname@) is None,
        },
{
    let opts = cpp_demangle::DemangleOptions::new().no_params();
    cpp_demangle::Symbol::new(funcname).ok().and_then(|sym| sym.demangle(&opts).ok())
}

/// Relies on rustc_demangle: `demangle` in alternate display form strips the
/// trailing hash and hands back unmangleable names unchanged. The result is
/// a function of the name alone.
#[verifier::external_body]
pub(crate) fn rust_demangle_or_id(funcname: &str) -> (r: String)
    ensures
        r@ == rust_demangled(funcname@),
{
    format!("{:#}", rustc_demangle::demangle(funcname))
}

/// The C++ demangling of the name, or the name itself where it does not
/// demangle.
pub fn cpp_demangle_or_id(funcname: &str) -> (r: String)
    ensures
        r@ == (match cpp_demangled(funcname@) {
            Some(d) => d,
            None => funcname@,
        }),
{
    match try_cpp_demangle(funcname) {
        Some(s) => s,
        None => funcname.to_owned(),
    }
}

impl Demangling {
    /// Demangle the given function name as this setting directs; a name the
    /// chosen demangler cannot handle is returned as it came.
    pub fn maybe_demangle(self, funcname: &str) -> (r: String)
        ensures
            r@ == (match self {
                Demangling::NoDemangling => funcname@,
                Demangling::CPP => match cpp_demangled(funcname@) {
                    Some(d) => d,
                    None => funcname@,
                },
                Demangling::Rust => rust_demangled(funcname@),
            }),
    {
        match self {
            Demangling::NoDemangling => funcname.to_owned(),
            Demangling::CPP => cpp_demangle_or_id(funcname),
            Demangling::Rust => rust_demangle_or_id(funcname),
        }
    }
}

/// What `autodetect` reads of a project: the source file names recorded in
/// its modules.
pub struct Project {
    source_file_names: Vec<String>,
}

impl View for Project {
    type V = Seq<Seq<char>>;

    closed spec fn view(&self) -> Seq<Seq<char>> {
        Seq::new(self.source_file_names@.len(), |i: int| self.source_file_names@[i]@)
    }
}

impl Project {
    /// A project described by the source file names of its modules.
    pub fn from_source_file_names(names: Vec<String>) -> (r: Project)
        ensures
            r@.len() == names@.len(),
            forall|i: int| 0 <= i < names@.len() ==> r@[i] == names@[i]@,
    {
        Project { source_file_names: names }
    }
}

/// The byte suffix that marks a Rust source file name.
pub open spec fn rust_source_suffix() -> Seq<u8> {
    seq![46u8, 114u8, 115u8]  // ".rs"
}

/// The byte suffix of bitcode source names that rustc writes per codegen
/// unit.
pub open spec fn rust_cgu_suffix() -> Seq<u8> {
    seq![117u8, 46u8, 48u8]  // "u.0"
}

/// The byte suffix that marks a C++ source file name.
pub open spec fn cpp_source_suffix() -> Seq<u8> {
    seq![46u8, 99u8, 112u8, 112u8]  // ".cpp"
}

/// The name looks like a Rust source file or rustc-generated bitcode.
pub open spec fn looks_rust(name: Seq<char>) -> bool {
    rust_source_suffix().is_suffix_of(encode_utf8(name)) || rust_cgu_suffix().is_suffix_of(
        encode_utf8(name),
    )
}

/// The name looks like a C++ source file.
pub open spec fn looks_cpp(name: Seq<char>) -> bool {
    cpp_source_suffix().is_suffix_of(encode_utf8(name))
}

/// Whether `s` ends with the bytes of `suffix`.
fn ends_with(s: &[u8], suffix: &[u8]) -> (b: bool)
    ensures
        b == suffix@.is_suffix_of(s@),
{
    let n = s.len();
    let m = suffix.len();
    if m > n {
        return false;
    }
    let mut i: usize = 0;
    while i < m
        invariant
            m <= n,
            n == s@.len(),
            m == suffix@.len(),
            i <= m,
            forall|k: int| 0 <= k < i ==> s@[n - m + k] == suffix@[k],
        decreases m - i,
    {
        if s[n - m + i] != suffix[i] {
            proof {
                let tail = s@.subrange((n - m) as int, n as int);
                assert(tail[i as int] == s@[n - m + i]);
                assert(!(suffix@ =~= tail));
            }
            return false;
        }
        i += 1;
    }
    proof {
        let tail = s@.subrange((n - m) as int, n as int);
        assert(suffix@ =~= tail);
    }
    true
}

impl Demangling {
    /// Guess an appropriate demangling for the project: Rust when any module
    /// source file name ends in ".rs" (or in "u.0", which rustc-generated
    /// bitcode carries per codegen unit), else C++ when any ends in ".cpp",
    /// else none.
    pub fn autodetect(proj: &Project) -> (r: Demangling)
        ensures
            r == (if exists|i: int| 0 <= i < proj@.len() && looks_rust(proj@[i]) {
                Demangling::Rust
            } else if exists|i: int| 0 <= i < proj@.len() && looks_cpp(proj@[i]) {
                Demangling::CPP
            } else {
                Demangling::NoDemangling
            }),
    {
        let rs: [u8; 3] = [46, 114, 115];
        let cgu: [u8; 3] = [117, 46, 48];
        let cpp: [u8; 4] = [46, 99, 112, 112];
        let n = proj.source_file_names.len();
        let mut i: usize = 0;
        while i < n
            invariant
                n == proj@.len(),
                i <= n,
                rs@ == rust_source_suffix(),
                cgu@ == rust_cgu_suffix(),
                cpp@ == cpp_source_suffix(),
                forall|k: int| 0 <= k < i ==> !looks_rust(proj@[k]),
            decreases n - i,
        {
            let name = &proj.source_file_names[i];
            let bytes = name.as_str().as_bytes();
            if ends_with(bytes, rs.as_slice()) || ends_with(bytes, cgu.as_slice()) {
                assert(looks_rust(proj@[i as int]));
                return Demangling::Rust;
            }
            i += 1;
        }
        let mut i: usize = 0;
        while i < n
            invariant
                n == proj@.len(),
                i <= n,
                cpp@ == cpp_source_suffix(),
                forall|k: int| 0 <= k < n ==> !looks_rust(proj@[k]),
                forall|k: int| 0 <= k < i ==> !looks_cpp(proj@[k]),
            decreases n - i,
        {
            let name = &proj.source_file_names[i];
            let bytes = name.as_str().as_bytes();
            if ends_with(bytes, cpp.as_slice()) {
                assert(looks_cpp(proj@[i as int]));
                return Demangling::CPP;
            }
            i += 1;
        }
        Demangling::NoDemangling
    }
}

} // verus!
