//! The service configuration written by the `set-args` command.

use vstd::prelude::*;
use vstd::string::StringSliceAdditionalSpecFns;
use crate::text::{
    is_signed_numeral, lemma_signed_decimal_reads_back, push_signed_decimal, push_text,
    signed_decimal, signed_value,
};

verus! {

/// The configuration line that starts the daemon on `path` with `rotate`
/// degrees: `MYAPP_ARGS="--input <path> --rotate <rotate>"`.
pub open spec fn config_line(path: Seq<u8>, rotate: int) -> Seq<u8> {
    "MYAPP_ARGS=\"--input ".spec_bytes() + path + " --rotate ".spec_bytes() + signed_decimal(
        rotate,
    ) + "\"".spec_bytes()
}

/// Builds the contents of the service's configuration file for an input
/// file at `input_path` and a rotation of `rotate` degrees.
pub fn config_file_contents(input_path: &str, rotate: i32) -> (contents: Vec<u8>)
    ensures
        contents@ == config_line(input_path.spec_bytes(), rotate as int),
        exists|t: Seq<u8>|
            #![trigger is_signed_numeral(t)]
            is_signed_numeral(t) && signed_value(t) == rotate && contents@ == "MYAPP_ARGS=\"--input ".spec_bytes()
                + input_path.spec_bytes() + " --rotate ".spec_bytes() + t + "\"".spec_bytes(),
{
    let mut contents: Vec<u8> = Vec::new();
    push_text(&mut contents, "MYAPP_ARGS=\"--input ");
    push_text(&mut contents, input_path);
    push_text(&mut contents, " --rotate ");
    push_signed_decimal(&mut contents, rotate);
    push_text(&mut contents, "\"");
    assert(contents@ =~= config_line(input_path.spec_bytes(), rotate as int));
    proof {
        lemma_config_line_reads_back(input_path.spec_bytes(), rotate as int);
    }
    contents
}

/// The configuration line is `MYAPP_ARGS="--input <path> --rotate <t>"`
/// with the path as given and `t` a signed numeral, written as a person
/// writes it, that reads back as exactly the rotation asked for.
pub proof fn lemma_config_line_reads_back(path: Seq<u8>, rotate: int)
    ensures
        exists|t: Seq<u8>|
            #![trigger is_signed_numeral(t)]
            is_signed_numeral(t) && signed_value(t) == rotate && config_line(path, rotate)
                == "MYAPP_ARGS=\"--input ".spec_bytes() + path + " --rotate ".spec_bytes() + t
                + "\"".spec_bytes(),
{
    lemma_signed_decimal_reads_back(rotate);
    let t = signed_decimal(rotate);
    assert(is_signed_numeral(t));
}

} // verus!
