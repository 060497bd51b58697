//! The grammar registry's tables: which language a file extension maps to,
//! and the name of the cached grammar blob for a language. Downloading and
//! loading the blobs is the shell's work; the registry data and the path
//! arithmetic live here.

use vstd::prelude::*;
use crate::bytes::{bytes_eq, push_all};

verus! {

/// A language the registry knows a grammar for.
#[derive(Clone, Copy, Debug, PartialEq, Eq, Structural)]
pub enum LangId {
    Typescript,
    Tsx,
    Python,
    Go,
    RustLang,
    Javascript,
    C,
    Cpp,
    Java,
    Ruby,
    Php,
    Html,
    Css,
    Bash,
    Json,
}

/// The extension table, on a lowercased extension.
pub open spec fn spec_ext_lang(e: Seq<u8>) -> Option<LangId> {
    if false {
        None
    } else if e == seq![106u8, 115u8] {
        Some(LangId::Javascript)
    } else if e == seq![109u8, 106u8, 115u8] {
        Some(LangId::Javascript)
    } else if e == seq![99u8, 106u8, 115u8] {
        Some(LangId::Javascript)
    } else if e == seq![116u8, 115u8] {
        Some(LangId::Typescript)
    } else if e == seq![109u8, 116u8, 115u8] {
        Some(LangId::Typescript)
    } else if e == seq![99u8, 116u8, 115u8] {
        Some(LangId::Typescript)
    } else if e == seq![106u8, 115u8, 120u8] {
        Some(LangId::Tsx)
    } else if e == seq![116u8, 115u8, 120u8] {
        Some(LangId::Tsx)
    } else if e == seq![112u8, 121u8] {
        Some(LangId::Python)
    } else if e == seq![112u8, 121u8, 105u8] {
        Some(LangId::Python)
    } else if e == seq![103u8, 111u8] {
        Some(LangId::Go)
    } else if e == seq![114u8, 115u8] {
        Some(LangId::RustLang)
    } else if e == seq![99u8] {
        Some(LangId::C)
    } else if e == seq![104u8] {
        Some(LangId::C)
    } else if e == seq![99u8, 112u8, 112u8] {
        Some(LangId::Cpp)
    } else if e == seq![99u8, 99u8] {
        Some(LangId::Cpp)
    } else if e == seq![99u8, 120u8, 120u8] {
        Some(LangId::Cpp)
    } else if e == seq![99u8, 43u8, 43u8] {
        Some(LangId::Cpp)
    } else if e == seq![104u8, 112u8, 112u8] {
        Some(LangId::Cpp)
    } else if e == seq![104u8, 120u8, 120u8] {
        Some(LangId::Cpp)
    } else if e == seq![104u8, 43u8, 43u8] {
        Some(LangId::Cpp)
    } else if e == seq![106u8, 97u8, 118u8, 97u8] {
        Some(LangId::Java)
    } else if e == seq![114u8, 98u8] {
        Some(LangId::Ruby)
    } else if e == seq![112u8, 104u8, 112u8] {
        Some(LangId::Php)
    } else if e == seq![104u8, 116u8, 109u8, 108u8] {
        Some(LangId::Html)
    } else if e == seq![104u8, 116u8, 109u8] {
        Some(LangId::Html)
    } else if e == seq![99u8, 115u8, 115u8] {
        Some(LangId::Css)
    } else if e == seq![115u8, 104u8] {
        Some(LangId::Bash)
    } else if e == seq![98u8, 97u8, 115u8, 104u8] {
        Some(LangId::Bash)
    } else if e == seq![106u8, 115u8, 111u8, 110u8] {
        Some(LangId::Json)
    } else {
        None
    }
}

/// A byte lowercased, ASCII only.
pub open spec fn spec_lower(b: u8) -> u8 {
    if 65 <= b <= 90 {
        (b + 32) as u8
    } else {
        b
    }
}

/// Lowercases a copy of the bytes.
fn to_lower(s: &[u8]) -> (r: Vec<u8>)
    ensures
        r@ == s@.map_values(|b: u8| spec_lower(b)),
{
    let mut out: Vec<u8> = Vec::new();
    let mut i: usize = 0;
    while i < s.len()
        invariant
            0 <= i <= s@.len(),
            out@ == s@.subrange(0, i as int).map_values(|b: u8| spec_lower(b)),
        decreases s@.len() - i,
    {
        let b = s[i];
        let lb: u8 = if 65 <= b && b <= 90 {
            b + 32
        } else {
            b
        };
        out.push(lb);
        proof {
            assert(out@ =~= s@.subrange(0, i + 1).map_values(|b: u8| spec_lower(b)));
        }
        i += 1;
    }
    proof {
        assert(s@.subrange(0, s@.len() as int) =~= s@);
    }
    out
}

/// The language for a file extension, compared without regard to ASCII
/// case; `None` for an unknown extension.
pub fn extension_to_language(ext: &[u8]) -> (r: Option<LangId>)
    ensures
        r == spec_ext_lang(ext@.map_values(|b: u8| spec_lower(b))),
{
    let low = to_lower(ext);
    {
        let mut p: Vec<u8> = Vec::new();
        p.push(106);
        p.push(115);
        proof {
            assert(p@ =~= seq![106u8, 115u8]);
        }
        if bytes_eq(low.as_slice(), p.as_slice()) {
            return Some(LangId::Javascript);
        }
    }
    {
        let mut p: Vec<u8> = Vec::new();
        p.push(109);
        p.push(106);
        p.push(115);
        proof {
            assert(p@ =~= seq![109u8, 106u8, 115u8]);
        }
        if bytes_eq(low.as_slice(), p.as_slice()) {
            return Some(LangId::Javascript);
        }
    }
    {
        let mut p: Vec<u8> = Vec::new();
        p.push(99);
        p.push(106);
        p.push(115);
        proof {
            assert(p@ =~= seq![99u8, 106u8, 115u8]);
        }
        if bytes_eq(low.as_slice(), p.as_slice()) {
            return Some(LangId::Javascript);
        }
    }
    {
        let mut p: Vec<u8> = Vec::new();
        p.push(116);
        p.push(115);
        proof {
            assert(p@ =~= seq![116u8, 115u8]);
        }
        if bytes_eq(low.as_slice(), p.as_slice()) {
            return Some(LangId::Typescript);
        }
    }
    {
        let mut p: Vec<u8> = Vec::new();
        p.push(109);
        p.push(116);
        p.push(115);
        proof {
            assert(p@ =~= seq![109u8, 116u8, 115u8]);
        }
        if bytes_eq(low.as_slice(), p.as_slice()) {
            return Some(LangId::Typescript);
        }
    }
    {
        let mut p: Vec<u8> = Vec::new();
        p.push(99);
        p.push(116);
        p.push(115);
        proof {
            assert(p@ =~= seq![99u8, 116u8, 115u8]);
        }
        if bytes_eq(low.as_slice(), p.as_slice()) {
            return Some(LangId::Typescript);
        }
    }
    {
        let mut p: Vec<u8> = Vec::new();
        p.push(106);
        p.push(115);
        p.push(120);
        proof {
            assert(p@ =~= seq![106u8, 115u8, 120u8]);
        }
        if bytes_eq(low.as_slice(), p.as_slice()) {
            return Some(LangId::Tsx);
        }
    }
    {
        let mut p: Vec<u8> = Vec::new();
        p.push(116);
        p.push(115);
        p.push(120);
        proof {
            assert(p@ =~= seq![116u8, 115u8, 120u8]);
        }
        if bytes_eq(low.as_slice(), p.as_slice()) {
            return Some(LangId::Tsx);
        }
    }
    {
        let mut p: Vec<u8> = Vec::new();
        p.push(112);
        p.push(121);
        proof {
            assert(p@ =~= seq![112u8, 121u8]);
        }
        if bytes_eq(low.as_slice(), p.as_slice()) {
            return Some(LangId::Python);
        }
    }
    {
        let mut p: Vec<u8> = Vec::new();
        p.push(112);
        p.push(121);
        p.push(105);
        proof {
            assert(p@ =~= seq![112u8, 121u8, 105u8]);
        }
        if bytes_eq(low.as_slice(), p.as_slice()) {
            return Some(LangId::Python);
        }
    }
    {
        let mut p: Vec<u8> = Vec::new();
        p.push(103);
        p.push(111);
        proof {
            assert(p@ =~= seq![103u8, 111u8]);
        }
        if bytes_eq(low.as_slice(), p.as_slice()) {
            return Some(LangId::Go);
        }
    }
    {
        let mut p: Vec<u8> = Vec::new();
        p.push(114);
        p.push(115);
        proof {
            assert(p@ =~= seq![114u8, 115u8]);
        }
        if bytes_eq(low.as_slice(), p.as_slice()) {
            return Some(LangId::RustLang);
        }
    }
    {
        let mut p: Vec<u8> = Vec::new();
        p.push(99);
        proof {
            assert(p@ =~= seq![99u8]);
        }
        if bytes_eq(low.as_slice(), p.as_slice()) {
            return Some(LangId::C);
        }
    }
    {
        let mut p: Vec<u8> = Vec::new();
        p.push(104);
        proof {
            assert(p@ =~= seq![104u8]);
        }
        if bytes_eq(low.as_slice(), p.as_slice()) {
            return Some(LangId::C);
        }
    }
    {
        let mut p: Vec<u8> = Vec::new();
        p.push(99);
        p.push(112);
        p.push(112);
        proof {
            assert(p@ =~= seq![99u8, 112u8, 112u8]);
        }
        if bytes_eq(low.as_slice(), p.as_slice()) {
            return Some(LangId::Cpp);
        }
    }
    {
        let mut p: Vec<u8> = Vec::new();
        p.push(99);
        p.push(99);
        proof {
            assert(p@ =~= seq![99u8, 99u8]);
        }
        if bytes_eq(low.as_slice(), p.as_slice()) {
            return Some(LangId::Cpp);
        }
    }
    {
        let mut p: Vec<u8> = Vec::new();
        p.push(99);
        p.push(120);
        p.push(120);
        proof {
            assert(p@ =~= seq![99u8, 120u8, 120u8]);
        }
        if bytes_eq(low.as_slice(), p.as_slice()) {
            return Some(LangId::Cpp);
        }
    }
    {
        let mut p: Vec<u8> = Vec::new();
        p.push(99);
        p.push(43);
        p.push(43);
        proof {
            assert(p@ =~= seq![99u8, 43u8, 43u8]);
        }
        if bytes_eq(low.as_slice(), p.as_slice()) {
            return Some(LangId::Cpp);
        }
    }
    {
        let mut p: Vec<u8> = Vec::new();
        p.push(104);
        p.push(112);
        p.push(112);
        proof {
            assert(p@ =~= seq![104u8, 112u8, 112u8]);
        }
        if bytes_eq(low.as_slice(), p.as_slice()) {
            return Some(LangId::Cpp);
        }
    }
    {
        let mut p: Vec<u8> = Vec::new();
        p.push(104);
        p.push(120);
        p.push(120);
        proof {
            assert(p@ =~= seq![104u8, 120u8, 120u8]);
        }
        if bytes_eq(low.as_slice(), p.as_slice()) {
            return Some(LangId::Cpp);
        }
    }
    {
        let mut p: Vec<u8> = Vec::new();
        p.push(104);
        p.push(43);
        p.push(43);
        proof {
            assert(p@ =~= seq![104u8, 43u8, 43u8]);
        }
        if bytes_eq(low.as_slice(), p.as_slice()) {
            return Some(LangId::Cpp);
        }
    }
    {
        let mut p: Vec<u8> = Vec::new();
        p.push(106);
        p.push(97);
        p.push(118);
        p.push(97);
        proof {
            assert(p@ =~= seq![106u8, 97u8, 118u8, 97u8]);
        }
        if bytes_eq(low.as_slice(), p.as_slice()) {
            return Some(LangId::Java);
        }
    }
    {
        let mut p: Vec<u8> = Vec::new();
        p.push(114);
        p.push(98);
        proof {
            assert(p@ =~= seq![114u8, 98u8]);
        }
        if bytes_eq(low.as_slice(), p.as_slice()) {
            return Some(LangId::Ruby);
        }
    }
    {
        let mut p: Vec<u8> = Vec::new();
        p.push(112);
        p.push(104);
        p.push(112);
        proof {
            assert(p@ =~= seq![112u8, 104u8, 112u8]);
        }
        if bytes_eq(low.as_slice(), p.as_slice()) {
            return Some(LangId::Php);
        }
    }
    {
        let mut p: Vec<u8> = Vec::new();
        p.push(104);
        p.push(116);
        p.push(109);
        p.push(108);
        proof {
            assert(p@ =~= seq![104u8, 116u8, 109u8, 108u8]);
        }
        if bytes_eq(low.as_slice(), p.as_slice()) {
            return Some(LangId::Html);
        }
    }
    {
        let mut p: Vec<u8> = Vec::new();
        p.push(104);
        p.push(116);
        p.push(109);
        proof {
            assert(p@ =~= seq![104u8, 116u8, 109u8]);
        }
        if bytes_eq(low.as_slice(), p.as_slice()) {
            return Some(LangId::Html);
        }
    }
    {
        let mut p: Vec<u8> = Vec::new();
        p.push(99);
        p.push(115);
        p.push(115);
        proof {
            assert(p@ =~= seq![99u8, 115u8, 115u8]);
        }
        if bytes_eq(low.as_slice(), p.as_slice()) {
            return Some(LangId::Css);
        }
    }
    {
        let mut p: Vec<u8> = Vec::new();
        p.push(115);
        p.push(104);
        proof {
            assert(p@ =~= seq![115u8, 104u8]);
        }
        if bytes_eq(low.as_slice(), p.as_slice()) {
            return Some(LangId::Bash);
        }
    }
    {
        let mut p: Vec<u8> = Vec::new();
        p.push(98);
        p.push(97);
        p.push(115);
        p.push(104);
        proof {
            assert(p@ =~= seq![98u8, 97u8, 115u8, 104u8]);
        }
        if bytes_eq(low.as_slice(), p.as_slice()) {
            return Some(LangId::Bash);
        }
    }
    {
        let mut p: Vec<u8> = Vec::new();
        p.push(106);
        p.push(115);
        p.push(111);
        p.push(110);
        proof {
            assert(p@ =~= seq![106u8, 115u8, 111u8, 110u8]);
        }
        if bytes_eq(low.as_slice(), p.as_slice()) {
            return Some(LangId::Json);
        }
    }
    None
}

/// The registry name of a language, as it appears in the grammar file name.
pub open spec fn spec_lang_name(l: LangId) -> Seq<u8> {
    match l {
        LangId::Typescript => seq![116u8, 121u8, 112u8, 101u8, 115u8, 99u8, 114u8, 105u8, 112u8, 116u8],
        LangId::Tsx => seq![116u8, 115u8, 120u8],
        LangId::Python => seq![112u8, 121u8, 116u8, 104u8, 111u8, 110u8],
        LangId::Go => seq![103u8, 111u8],
        LangId::RustLang => seq![114u8, 117u8, 115u8, 116u8],
        LangId::Javascript => seq![106u8, 97u8, 118u8, 97u8, 115u8, 99u8, 114u8, 105u8, 112u8, 116u8],
        LangId::C => seq![99u8],
        LangId::Cpp => seq![99u8, 112u8, 112u8],
        LangId::Java => seq![106u8, 97u8, 118u8, 97u8],
        LangId::Ruby => seq![114u8, 117u8, 98u8, 121u8],
        LangId::Php => seq![112u8, 104u8, 112u8],
        LangId::Html => seq![104u8, 116u8, 109u8, 108u8],
        LangId::Css => seq![99u8, 115u8, 115u8],
        LangId::Bash => seq![98u8, 97u8, 115u8, 104u8],
        LangId::Json => seq![106u8, 115u8, 111u8, 110u8],
    }
}

fn lang_name(l: LangId) -> (r: Vec<u8>)
    ensures
        r@ == spec_lang_name(l),
{
    let mut v: Vec<u8> = Vec::new();
    match l {
        LangId::Typescript => {
            v.push(116);
            v.push(121);
            v.push(112);
            v.push(101);
            v.push(115);
            v.push(99);
            v.push(114);
            v.push(105);
            v.push(112);
            v.push(116);
            proof {
                assert(v@ =~= seq![116u8, 121u8, 112u8, 101u8, 115u8, 99u8, 114u8, 105u8, 112u8, 116u8]);
            }
        },
        LangId::Tsx => {
            v.push(116);
            v.push(115);
            v.push(120);
            proof {
                assert(v@ =~= seq![116u8, 115u8, 120u8]);
            }
        },
        LangId::Python => {
            v.push(112);
            v.push(121);
            v.push(116);
            v.push(104);
            v.push(111);
            v.push(110);
            proof {
                assert(v@ =~= seq![112u8, 121u8, 116u8, 104u8, 111u8, 110u8]);
            }
        },
        LangId::Go => {
            v.push(103);
            v.push(111);
            proof {
                assert(v@ =~= seq![103u8, 111u8]);
            }
        },
        LangId::RustLang => {
            v.push(114);
            v.push(117);
            v.push(115);
            v.push(116);
            proof {
                assert(v@ =~= seq![114u8, 117u8, 115u8, 116u8]);
            }
        },
        LangId::Javascript => {
            v.push(106);
            v.push(97);
            v.push(118);
            v.push(97);
            v.push(115);
            v.push(99);
            v.push(114);
            v.push(105);
            v.push(112);
            v.push(116);
            proof {
                assert(v@ =~= seq![106u8, 97u8, 118u8, 97u8, 115u8, 99u8, 114u8, 105u8, 112u8, 116u8]);
            }
        },
        LangId::C => {
            v.push(99);
            proof {
                assert(v@ =~= seq![99u8]);
            }
        },
        LangId::Cpp => {
            v.push(99);
            v.push(112);
            v.push(112);
            proof {
                assert(v@ =~= seq![99u8, 112u8, 112u8]);
            }
        },
        LangId::Java => {
            v.push(106);
            v.push(97);
            v.push(118);
            v.push(97);
            proof {
                assert(v@ =~= seq![106u8, 97u8, 118u8, 97u8]);
            }
        },
        LangId::Ruby => {
            v.push(114);
            v.push(117);
            v.push(98);
            v.push(121);
            proof {
                assert(v@ =~= seq![114u8, 117u8, 98u8, 121u8]);
            }
        },
        LangId::Php => {
            v.push(112);
            v.push(104);
            v.push(112);
            proof {
                assert(v@ =~= seq![112u8, 104u8, 112u8]);
            }
        },
        LangId::Html => {
            v.push(104);
            v.push(116);
            v.push(109);
            v.push(108);
            proof {
                assert(v@ =~= seq![104u8, 116u8, 109u8, 108u8]);
            }
        },
        LangId::Css => {
            v.push(99);
            v.push(115);
            v.push(115);
            proof {
                assert(v@ =~= seq![99u8, 115u8, 115u8]);
            }
        },
        LangId::Bash => {
            v.push(98);
            v.push(97);
            v.push(115);
            v.push(104);
            proof {
                assert(v@ =~= seq![98u8, 97u8, 115u8, 104u8]);
            }
        },
        LangId::Json => {
            v.push(106);
            v.push(115);
            v.push(111);
            v.push(110);
            proof {
                assert(v@ =~= seq![106u8, 115u8, 111u8, 110u8]);
            }
        },
    }
    v
}

/// `tree-sitter-`.
pub open spec fn spec_grammar_prefix() -> Seq<u8> {
    seq![116u8, 114u8, 101u8, 101u8, 45u8, 115u8, 105u8, 116u8, 116u8, 101u8, 114u8, 45u8]
}

/// `.wasm`.
pub open spec fn spec_wasm_suffix() -> Seq<u8> {
    seq![46u8, 119u8, 97u8, 115u8, 109u8]
}

/// The file name of a language's cached grammar blob:
/// `tree-sitter-{lang}.wasm`.
pub fn grammar_file_name(l: LangId) -> (r: Vec<u8>)
    ensures
        r@ == spec_grammar_prefix() + spec_lang_name(l) + spec_wasm_suffix(),
{
    let mut v: Vec<u8> = Vec::new();
    v.push(116);
    v.push(114);
    v.push(101);
    v.push(101);
    v.push(45);
    v.push(115);
    v.push(105);
    v.push(116);
    v.push(116);
    v.push(101);
    v.push(114);
    v.push(45);
    proof {
        assert(v@ =~= spec_grammar_prefix());
    }
    let name = lang_name(l);
    push_all(&mut v, name.as_slice());
    let mut suffix: Vec<u8> = Vec::new();
    suffix.push(46);
    suffix.push(119);
    suffix.push(97);
    suffix.push(115);
    suffix.push(109);
    proof {
        assert(suffix@ =~= spec_wasm_suffix());
    }
    push_all(&mut v, suffix.as_slice());
    v
}

/// Index of the last path separator, or -1.
pub open spec fn last_sep(p: Seq<u8>) -> int
    decreases p.len(),
{
    if p.len() == 0 {
        -1
    } else if p.last() == 47 {
        p.len() - 1
    } else {
        last_sep(p.drop_last())
    }
}

/// Index of the last dot, or -1.
pub open spec fn last_dot(p: Seq<u8>) -> int
    decreases p.len(),
{
    if p.len() == 0 {
        -1
    } else if p.last() == 46 {
        p.len() - 1
    } else {
        last_dot(p.drop_last())
    }
}

/// The extension of a path: the bytes after the last dot of the last
/// component, present only when that dot is inside the component, not at
/// its start and not at the path's end.
pub open spec fn spec_extension_range(p: Seq<u8>) -> Option<(int, int)> {
    let comp_start = last_sep(p) + 1;
    let dot = last_dot(p);
    if dot > comp_start && dot + 1 < p.len() {
        Some((dot + 1, p.len() as int))
    } else {
        None
    }
}

/// The language of a path, by its lowercased extension.
pub fn language_for_path(path: &[u8]) -> (r: Option<LangId>)
    ensures
        match spec_extension_range(path@) {
            Some((a, b)) => r == spec_ext_lang(
                path@.subrange(a, b).map_values(|c: u8| spec_lower(c)),
            ),
            None => r is None,
        },
{
    let n = path.len();
    let mut sep: usize = 0;
    let mut has_sep = false;
    let mut dot: usize = 0;
    let mut has_dot = false;
    let mut i: usize = 0;
    while i < n
        invariant
            n == path@.len(),
            0 <= i <= n,
            has_sep ==> sep < i && last_sep(path@.subrange(0, i as int)) == sep,
            !has_sep ==> last_sep(path@.subrange(0, i as int)) == -1,
            has_dot ==> dot < i && last_dot(path@.subrange(0, i as int)) == dot,
            !has_dot ==> last_dot(path@.subrange(0, i as int)) == -1,
        decreases n - i,
    {
        proof {
            assert(path@.subrange(0, i + 1).drop_last() =~= path@.subrange(0, i as int));
            assert(path@.subrange(0, i + 1).last() == path@[i as int]);
        }
        if path[i] == 47 {
            sep = i;
            has_sep = true;
        } else if path[i] == 46 {
            dot = i;
            has_dot = true;
        }
        i += 1;
    }
    proof {
        assert(path@.subrange(0, n as int) =~= path@);
    }
    let comp_start: usize = if has_sep {
        sep + 1
    } else {
        0
    };
    if has_dot && dot > comp_start && dot + 1 < n {
        let ext = vstd::slice::slice_subrange(path, dot + 1, n);
        proof {
            assert(ext@ =~= path@.subrange(dot + 1, n as int));
        }
        extension_to_language(ext)
    } else {
        None
    }
}

} // verus!
