//! String helpers for canonical names and script text.
//!
//! A node is identified as `"<step>:<service>"`, and an array-form script is
//! the newline-join of its lines; both shapes are defined here once.

use vstd::prelude::*;
use vstd::string::StringExecFns;

verus! {

/// The canonical identifier of a step/service pair: `"<step>:<service>"`.
pub open spec fn qualified(step: Seq<char>, service: Seq<char>) -> Seq<char> {
    step + seq![':'] + service
}

/// Build the canonical `"<step>:<service>"` identifier.
pub fn qualify(step_name: &str, service_name: &str) -> (r: String)
    ensures
        r@ == qualified(step_name@, service_name@),
{
    let mut r = step_name.to_owned();
    r.append(":");
    r.append(service_name);
    proof {
        reveal_strlit(":");
        assert(r@ =~= qualified(step_name@, service_name@));
    }
    r
}

/// The lines joined with a single newline between consecutive lines.
pub open spec fn joined_lines(lines: Seq<Seq<char>>) -> Seq<char>
    decreases lines.len(),
{
    if lines.len() == 0 {
        Seq::empty()
    } else if lines.len() == 1 {
        lines[0]
    } else {
        joined_lines(lines.drop_last()) + seq!['\n'] + lines.last()
    }
}

/// Join the lines with newlines into one script text.
pub fn join_lines(lines: &Vec<String>) -> (r: String)
    ensures
        r@ == joined_lines(lines.deep_view()),
{
    let mut r = String::new();
    let n = lines.len();
    let mut i: usize = 0;
    while i < n
        invariant
            i <= n,
            n == lines.len(),
            r@ == joined_lines(lines.deep_view().take(i as int)),
        decreases n - i,
    {
        if i > 0 {
            r.append("\n");
        }
        r.append(lines[i].as_str());
        i = i + 1;
        proof {
            reveal_strlit("\n");
            let full = lines.deep_view();
            assert(full.take(i as int).drop_last() =~= full.take(i - 1));
            assert(full.take(i as int).last() == full[i - 1]);
            if i == 1 {
                assert(r@ =~= joined_lines(full.take(i as int)));
            } else {
                assert(r@ =~= joined_lines(full.take(i - 1)) + seq!['\n'] + full[i - 1]);
            }
        }
    }
    proof {
        assert(lines.deep_view().take(n as int) =~= lines.deep_view());
    }
    r
}

/// Copy a vector of strings, preserving its contents.
pub fn clone_strings(v: &Vec<String>) -> (r: Vec<String>)
    ensures
        r.deep_view() == v.deep_view(),
{
    let mut r: Vec<String> = Vec::new();
    let n = v.len();
    let mut i: usize = 0;
    while i < n
        invariant
            i <= n,
            n == v.len(),
            r.deep_view() =~= v.deep_view().take(i as int),
        decreases n - i,
    {
        let ghost rold = r@;
        let ghost prev = r.deep_view();
        r.push(v[i].clone());
        i = i + 1;
        proof {
            assert(v.deep_view().len() == n);
            assert(prev.len() == i - 1);
            assert(rold.len() == i - 1);
            assert(r@.len() == i);
            assert(r.deep_view().len() == i);
            assert forall|j: int| 0 <= j < i implies r.deep_view()[j] == v.deep_view()[j] by {
                assert(r.deep_view()[j] == r@[j]@);
                assert(v.deep_view()[j] == v@[j]@);
                if j < i - 1 {
                    assert(r@[j] == rold[j]);
                    assert(prev[j] == rold[j]@);
                    assert(prev[j] == v.deep_view().take(i - 1)[j]);
                } else {
                    assert(r@[j] == v@[i - 1]);
                }
            }
            assert(r.deep_view().len() == i);
            assert(r.deep_view() =~= v.deep_view().take(i as int));
        }
    }
    proof {
        assert(v.deep_view().take(n as int) =~= v.deep_view());
    }
    r
}

/// Compare two vectors of strings by their contents.
pub fn eq_string_vecs(a: &Vec<String>, b: &Vec<String>) -> (r: bool)
    ensures
        r == (a.deep_view() == b.deep_view()),
{
    if a.len() != b.len() {
        proof {
            assert(a.deep_view().len() == a@.len());
            assert(b.deep_view().len() == b@.len());
        }
        return false;
    }
    let n = a.len();
    let mut i: usize = 0;
    while i < n
        invariant
            i <= n,
            n == a.len(),
            n == b.len(),
            forall|j: int| 0 <= j < i ==> a.deep_view()[j] == b.deep_view()[j],
        decreases n - i,
    {
        if !(a[i] == b[i]) {
            proof {
                assert(a.deep_view()[i as int] != b.deep_view()[i as int]);
            }
            return false;
        }
        i = i + 1;
    }
    proof {
        assert(a.deep_view() =~= b.deep_view());
    }
    true
}

} // verus!
