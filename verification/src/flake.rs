//! Whether the driving flake declares an input.
//!
//! After committing and pushing a Cargo.nix fix in a downstream repo, the
//! calling flake still pins the old rev, so `nix flake update <input>` is
//! run for it; an input that the flake does not declare is skipped.

use vstd::prelude::*;

use crate::text::{is_ws, is_ws_char, lit_at, lit_at_exec, to_chars};

verus! {

broadcast use vstd::string::group_string_axioms;

/// A character after which a name starts: whitespace, `{`, `;`, or the `.`
/// of an attribute path such as `inputs.<input>.url`.
pub open spec fn is_name_boundary(c: char) -> bool {
    is_ws(c) || c == '{' || c == ';' || c == '.'
}

/// `body` holds, at `p`, `<input> = {` or `<input>.url`, and the name starts
/// there: `p` is the start of the text or follows a boundary character, so
/// that `pleme-<input> = {` does not count for `<input>`.
pub open spec fn declared_at(body: Seq<char>, input: Seq<char>, p: int) -> bool {
    &&& (p == 0 || (0 < p <= body.len() && is_name_boundary(body[p - 1])))
    &&& (lit_at(body, p, input + " = {"@) || lit_at(body, p, input + ".url"@))
}

/// `body`, the text of `flake.nix`, declares `input`: somewhere the name
/// `input` starts and is followed by ` = {` or `.url`.
pub open spec fn declares_input(body: Seq<char>, input: Seq<char>) -> bool {
    exists|p: int| #[trigger] declared_at(body, input, p)
}

/// Wherever the name `input` starts (at the start of the text, or after
/// whitespace, `{`, `;` or `.`) and is followed by ` = {` or `.url`, the
/// flake declares the input, whatever else the text holds before it (the
/// name in a description, or inside a longer name).
pub proof fn lemma_declaration_is_found(body: Seq<char>, input: Seq<char>, p: int)
    requires
        p == 0 || (0 < p <= body.len() && (is_ws(body[p - 1]) || body[p - 1] == '{' || body[p
            - 1] == ';' || body[p - 1] == '.')),
        lit_at(body, p, input + " = {"@) || lit_at(body, p, input + ".url"@),
    ensures
        declares_input(body, input),
{
    assert(declared_at(body, input, p));
}

/// Text put before a flake, ending in whitespace, keeps every declaration
/// it holds.
pub proof fn lemma_declaration_survives_prefix(x: Seq<char>, body: Seq<char>, input: Seq<char>)
    requires
        declares_input(body, input),
        x.len() > 0,
        is_ws(x.last()),
    ensures
        declares_input(x + body, input),
{
    let p = choose|p: int| #[trigger] declared_at(body, input, p);
    let y = x + body;
    let k = x.len() as int;
    let q = p + k;
    let a = input + " = {"@;
    let b = input + ".url"@;
    if lit_at(body, p, a) {
        assert(y.subrange(q, q + a.len()) =~= body.subrange(p, p + a.len()));
    } else {
        assert(y.subrange(q, q + b.len()) =~= body.subrange(p, p + b.len()));
    }
    if p == 0 {
        assert(y[q - 1] == x.last());
    } else {
        assert(y[q - 1] == body[p - 1]);
    }
    lemma_declaration_is_found(y, input, q);
}

/// Whether the text of `flake.nix` declares `input`.
pub fn input_present_in_flake(body: &str, input: &str) -> (r: bool)
    ensures
        r == declares_input(body@, input@),
{
    let text = to_chars(body);
    let mut block = to_chars(input);
    let mut suffix = to_chars(" = {");
    block.append(&mut suffix);
    let mut url = to_chars(input);
    let mut dot_url = to_chars(".url");
    url.append(&mut dot_url);
    let mut p: usize = 0;
    loop
        invariant
            text@ == body@,
            block@ == input@ + " = {"@,
            url@ == input@ + ".url"@,
            p <= text@.len(),
            forall|k: int| 0 <= k < p ==> !#[trigger] declared_at(body@, input@, k),
        decreases text@.len() - p,
    {
        let starts = p == 0 || {
            let c = text[p - 1];
            is_ws_char(c) || c == '{' || c == ';' || c == '.'
        };
        if starts && (lit_at_exec(&text, p, &block) || lit_at_exec(&text, p, &url)) {
            assert(declared_at(body@, input@, p as int));
            return true;
        }
        if p == text.len() {
            assert forall|k: int| !#[trigger] declared_at(body@, input@, k) by {
                if k > text@.len() {
                    assert(!lit_at(body@, k, input@ + " = {"@));
                    assert(!lit_at(body@, k, input@ + ".url"@));
                }
            }
            return false;
        }
        p = p + 1;
    }
}

} // verus!
