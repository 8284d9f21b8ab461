use vstd::prelude::*;
use vstd::string::StringSliceAdditionalSpecFns;

verus! {

/// `s` ends with `suffix`.
pub open spec fn has_suffix(s: Seq<u8>, suffix: Seq<u8>) -> bool {
    s.len() >= suffix.len() && s.subrange(s.len() - suffix.len(), s.len() as int) == suffix
}

fn ends_with(s: &[u8], suffix: &[u8]) -> (b: bool)
    ensures
        b == has_suffix(s@, suffix@),
{
    if s.len() < suffix.len() {
        return false;
    }
    let start = s.len() - suffix.len();
    let mut i: usize = 0;
    while i < suffix.len()
        invariant
            start + suffix@.len() == s@.len(),
            s@.len() == s.len(),
            i <= suffix@.len(),
            forall|j: int| 0 <= j < i ==> s@[start + j] == suffix@[j],
        decreases suffix@.len() - i,
    {
        if s[start + i] != suffix[i] {
            assert(s@.subrange(start as int, s@.len() as int)[i as int] != suffix@[i as int]);
            return false;
        }
        i = i + 1;
    }
    assert(s@.subrange(start as int, s@.len() as int) =~= suffix@);
    true
}

/// Whether `s` names a Graphviz output file (ends with `.dot`).
pub fn is_dot_path(s: &str) -> (b: bool)
    ensures
        b == has_suffix(s.spec_bytes(), seq![46u8, 100u8, 111u8, 116u8]),
{
    let suffix: [u8; 4] = [46, 100, 111, 116];
    let r = ends_with(s.as_bytes(), suffix.as_slice());
    assert(suffix@ =~= seq![46u8, 100u8, 111u8, 116u8]);
    r
}

/// Whether `s` names an AIGER output file (ends with `.aag` or `.aig`).
pub fn is_aiger_path(s: &str) -> (b: bool)
    ensures
        b == (has_suffix(s.spec_bytes(), seq![46u8, 97u8, 97u8, 103u8]) || has_suffix(
            s.spec_bytes(),
            seq![46u8, 97u8, 105u8, 103u8],
        )),
{
    let aag: [u8; 4] = [46, 97, 97, 103];
    let aig: [u8; 4] = [46, 97, 105, 103];
    assert(aag@ =~= seq![46u8, 97u8, 97u8, 103u8]);
    assert(aig@ =~= seq![46u8, 97u8, 105u8, 103u8]);
    ends_with(s.as_bytes(), aag.as_slice()) || ends_with(s.as_bytes(), aig.as_slice())
}

} // verus!
