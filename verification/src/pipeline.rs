//! The caller-facing results: degree listings and the embeddable call.

use vstd::prelude::*;
use crate::codec::{decode_ast, escape_into, spec_decode, spec_decode_err, spec_escape};
use crate::resolve::{process_ast, spec_resolve};

verus! {

/// The digit character of one degree; degrees are single digits, so only the
/// last decimal digit of the value is taken.
pub open spec fn spec_degree_char(d: u8) -> char {
    ((48 + ((d as int) % 10)) as u8) as char
}

/// The comma-separated listing of a degree sequence; empty input gives the
/// empty text.
pub open spec fn spec_degrees_csv(ds: Seq<u8>) -> Seq<char>
    decreases ds.len(),
{
    if ds.len() <= 0 {
        Seq::empty()
    } else if ds.len() == 1 {
        seq![spec_degree_char(ds[0])]
    } else {
        seq![spec_degree_char(ds[0]), ','] + spec_degrees_csv(ds.subrange(1, ds.len() as int))
    }
}

/// The bracketed listing of a degree sequence, as the embeddable call
/// returns it.
pub open spec fn spec_degrees_json(ds: Seq<u8>) -> Seq<char> {
    seq!['['] + spec_degrees_csv(ds) + seq![']']
}

/// The error object of the embeddable call, carrying an escaped message.
pub open spec fn spec_error_json(m: Seq<char>) -> Seq<char> {
    "{\"error\":\""@ + spec_escape(m) + "\"}"@
}

/// The comma-separated textual listing of a degree sequence, as the
/// command-line surface prints it.
pub fn degrees_to_string(degrees: &Vec<u8>) -> (r: String)
    ensures
        r@ == spec_degrees_csv(degrees@),
{
    let ds = degrees;
    let n = ds.len();
    let mut out = String::new();
    proof {
        assert(ds@.subrange(0, n as int) =~= ds@);
    }
    let mut i: usize = 0;
    while i < n
        invariant
            n == ds@.len(),
            i <= n,
            out@ + spec_degrees_csv(ds@.subrange(i as int, n as int)) == spec_degrees_csv(ds@),
        decreases n - i,
    {
        let ghost rest = ds@.subrange(i as int, n as int);
        let d = ds[i];
        out.push((48 + (d % 10)) as char);
        if i + 1 < n {
            out.push(',');
            proof {
                assert(rest[0] == ds@[i as int]);
                assert(rest.subrange(1, rest.len() as int) =~= ds@.subrange(i + 1, n as int));
                assert(spec_degrees_csv(rest) =~= seq![spec_degree_char(ds@[i as int]), ',']
                    + spec_degrees_csv(ds@.subrange(i + 1, n as int)));
                assert(out@ + spec_degrees_csv(ds@.subrange(i + 1, n as int))
                    =~= spec_degrees_csv(ds@));
            }
        } else {
            proof {
                assert(rest.len() == 1);
                assert(rest[0] == ds@[i as int]);
                assert(spec_degrees_csv(rest) =~= seq![spec_degree_char(ds@[i as int])]);
                assert(ds@.subrange(i + 1, n as int).len() == 0);
                assert(out@ + spec_degrees_csv(ds@.subrange(i + 1, n as int))
                    =~= spec_degrees_csv(ds@));
            }
        }
        i += 1;
    }
    proof {
        assert(spec_degrees_csv(ds@.subrange(n as int, n as int)) =~= Seq::<char>::empty());
        assert(out@ =~= out@ + spec_degrees_csv(ds@.subrange(n as int, n as int)));
    }
    out
}

/// The embeddable call: decode an interchange text, resolve the tree, and
/// return the bracketed degree listing; on a malformed input return an error
/// object carrying the decoder's diagnostic message instead. Either way the
/// result is a function of the input text alone: equal inputs give equal
/// results. This call never panics: every failure is expressed in the
/// returned text.
pub fn process_chord_progression(ast_json: &str) -> (r: String)
    ensures
        spec_decode(ast_json@) matches Some(a) ==> r@ == spec_degrees_json(spec_resolve(a)),
        spec_decode(ast_json@) is None ==> r@ == spec_error_json(spec_decode_err(ast_json@)),
{
    match decode_ast(ast_json) {
        Ok(ast) => {
            let degrees = process_ast(&ast);
            let csv = degrees_to_string(&degrees);
            let mut out = String::new();
            out.push('[');
            out.append(csv.as_str());
            out.push(']');
            proof {
                let a = spec_decode(ast_json@)->Some_0;
                assert(out@ =~= spec_degrees_json(spec_resolve(a)));
            }
            out
        },
        Err(e) => {
            let mut out = String::from_str("{\"error\":\"");
            escape_into(e.msg.as_str(), &mut out);
            out.append("\"}");
            proof {
                assert(out@ =~= spec_error_json(e.msg@));
            }
            out
        },
    }
}

} // verus!
