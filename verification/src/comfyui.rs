//! The client side of the image-generation gateway, an external collaborator.
//! The library's part is what can be computed: it mints the identity under
//! which a generation request runs and fills the gateway's workflow template
//! with the prompt, the webhook callback and that identity. The transport
//! posts the filled body; the gateway's webhook later returns the identity to
//! name the finished monument.

use vstd::prelude::*;

use crate::codec::push_char;
use crate::persist::{dec_digits, u32_to_decimal};
use crate::types::random_u32;

verus! {

/// The text with every occurrence of the pattern replaced, scanning left to
/// right without overlap; an empty pattern leaves the text unchanged.
pub open spec fn spec_replace(s: Seq<char>, pat: Seq<char>, to: Seq<char>) -> Seq<char>
    decreases s.len(),
{
    if pat.len() == 0 || s.len() < pat.len() {
        s
    } else if s.take(pat.len() as int) == pat {
        to + spec_replace(s.skip(pat.len() as int), pat, to)
    } else {
        seq![s[0]] + spec_replace(s.skip(1), pat, to)
    }
}

/// Whether the pattern stands in the text at the given position.
fn matches_at(s: &str, n: usize, i: usize, pat: &str, m: usize) -> (r: bool)
    requires
        n == s@.len(),
        m == pat@.len(),
        i <= n,
    ensures
        r == (i + m <= n && s@.skip(i as int).take(m as int) == pat@),
{
    if n - i < m {
        return false;
    }
    let mut t: usize = 0;
    while t < m
        invariant
            n == s@.len(),
            m == pat@.len(),
            i + m <= n,
            t <= m,
            forall|q: int| 0 <= q < t ==> s@[i + q] == pat@[q],
        decreases m - t,
    {
        if s.get_char(i + t) != pat.get_char(t) {
            proof {
                let rem = s@.skip(i as int);
                assert(rem.take(m as int)[t as int] == s@[i + t]);
                assert(rem.take(m as int) != pat@);
            }
            return false;
        }
        t = t + 1;
    }
    proof {
        assert(s@.skip(i as int).take(m as int) =~= pat@);
    }
    true
}

/// Replaces every occurrence of the pattern, scanning left to right without
/// overlap.
pub fn replace_all(s: &str, pat: &str, to: &str) -> (r: String)
    ensures
        r@ == spec_replace(s@, pat@, to@),
{
    let n = s.unicode_len();
    let m = pat.unicode_len();
    if m == 0 {
        return s.to_owned();
    }
    let mut out = String::new();
    let mut i: usize = 0;
    proof {
        assert(s@.skip(0) =~= s@);
        assert(Seq::<char>::empty() + spec_replace(s@, pat@, to@) =~= spec_replace(
            s@,
            pat@,
            to@,
        ));
    }
    while i < n
        invariant
            n == s@.len(),
            m == pat@.len(),
            m >= 1,
            i <= n,
            spec_replace(s@, pat@, to@) == out@ + spec_replace(s@.skip(i as int), pat@, to@),
        decreases n - i,
    {
        let ghost pre = out@;
        let ghost rem = s@.skip(i as int);
        if matches_at(s, n, i, pat, m) {
            out.append(to);
            proof {
                assert(rem.skip(m as int) =~= s@.skip(i + m as int));
                assert(spec_replace(rem, pat@, to@) == to@ + spec_replace(
                    s@.skip(i + m as int),
                    pat@,
                    to@,
                ));
                assert(pre + (to@ + spec_replace(s@.skip(i + m as int), pat@, to@)) =~= (pre
                    + to@) + spec_replace(s@.skip(i + m as int), pat@, to@));
            }
            i = i + m;
        } else {
            let c = s.get_char(i);
            push_char(&mut out, c);
            proof {
                assert(rem[0] == s@[i as int]);
                assert(rem.skip(1) =~= s@.skip(i + 1 as int));
                if rem.len() < m {
                    assert(spec_replace(s@.skip(i + 1 as int), pat@, to@) == s@.skip(
                        i + 1 as int,
                    ));
                    assert(spec_replace(rem, pat@, to@) == rem);
                    assert(rem =~= seq![rem[0]] + rem.skip(1));
                } else {
                    assert(spec_replace(rem, pat@, to@) == seq![rem[0]] + spec_replace(
                        rem.skip(1),
                        pat@,
                        to@,
                    ));
                }
                assert(pre + (seq![s@[i as int]] + spec_replace(
                    s@.skip(i + 1 as int),
                    pat@,
                    to@,
                )) =~= pre.push(s@[i as int]) + spec_replace(s@.skip(i + 1 as int), pat@, to@));
            }
            i = i + 1;
        }
    }
    proof {
        assert(s@.skip(n as int).len() == 0);
        assert(spec_replace(s@.skip(n as int), pat@, to@) == s@.skip(n as int));
        assert(out@ + s@.skip(n as int) =~= out@);
    }
    out
}

/// The gateway request body: the workflow template with its placeholders
/// filled in the order the gateway documents them — the webhook callback,
/// the seed, the prompt, and the request identity.
pub open spec fn spec_workflow(
    template: Seq<char>,
    webhook_url: Seq<char>,
    prompt: Seq<char>,
    id: u32,
) -> Seq<char> {
    let prompt_id = dec_digits(id as nat);
    spec_replace(
        spec_replace(
            spec_replace(
                spec_replace(template, "__WEBHOOK_URL__"@, webhook_url),
                "1110000111"@,
                prompt_id,
            ),
            "__PROMPT__"@,
            prompt,
        ),
        "__PROMPT_ID__"@,
        prompt_id,
    )
}

/// A handle on the image-generation gateway.
pub struct ComfyUI;

impl ComfyUI {
    /// A gateway handle.
    pub fn new() -> ComfyUI {
        ComfyUI
    }

    /// Builds one generation request: mints the identity under which it runs
    /// and fills the workflow template with the prompt, the webhook callback
    /// and that identity. The transport posts the body; the monument the
    /// gateway produces is tracked under the returned identity.
    pub fn generate_request(&self, template: &str, webhook_url: &str, prompt: &str) -> (r: (
        u32,
        String,
    ))
        ensures
            r.1@ == spec_workflow(template@, webhook_url@, prompt@, r.0),
    {
        let id = random_u32();
        let prompt_id = u32_to_decimal(id);
        let step1 = replace_all(template, "__WEBHOOK_URL__", webhook_url);
        let step2 = replace_all(step1.as_str(), "1110000111", prompt_id.as_str());
        let step3 = replace_all(step2.as_str(), "__PROMPT__", prompt);
        let body = replace_all(step3.as_str(), "__PROMPT_ID__", prompt_id.as_str());
        (id, body)
    }
}

impl Default for ComfyUI {
    /// A gateway handle.
    fn default() -> (r: ComfyUI)
        ensures
            r == (ComfyUI),
    {
        ComfyUI
    }
}

} // verus!
