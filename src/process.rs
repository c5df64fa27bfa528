//! What a spawn needs that is computed rather than done: the command line a
//! process is created with where the OS takes one string.

use vstd::prelude::*;
use vstd::string::{StringExecFns, StringSliceAdditionalSpecFns};
use vstd::utf8::encode_utf8;
use crate::bytes::{find_byte, index_of, lemma_index_of};

verus! {

/// `s` between double quotes.
pub open spec fn quoted(s: Seq<char>) -> Seq<char> {
    seq!['"'] + s + seq!['"']
}

/// An argument as it stands in a command line: quoted when its UTF-8 bytes
/// hold a space.
pub open spec fn arg_text(a: Seq<char>) -> Seq<char> {
    if encode_utf8(a).contains(32u8) {
        quoted(a)
    } else {
        a
    }
}

/// The quoted executable path, then each argument after a space.
pub open spec fn command_line_text(exe: Seq<char>, args: Seq<Seq<char>>) -> Seq<char>
    decreases args.len(),
{
    if args.len() == 0 {
        quoted(exe)
    } else {
        command_line_text(exe, args.drop_last()) + seq![' '] + arg_text(args.last())
    }
}

/// The command line that runs `executable_path` with `args`.
pub fn command_line(executable_path: &str, args: &[String]) -> (r: String)
    ensures
        r@ == command_line_text(executable_path@, args@.map_values(|a: String| a@)),
{
    let quote = "\"";
    let space = " ";
    proof {
        reveal_strlit("\"");
        reveal_strlit(" ");
    }
    let mut line = String::from_str(quote);
    line.append(executable_path);
    line.append(quote);
    let ghost views = args@.map_values(|a: String| a@);
    assert(line@ =~= command_line_text(executable_path@, views.subrange(0, 0)));
    let mut i: usize = 0;
    while i < args.len()
        invariant
            i <= args@.len(),
            views == args@.map_values(|a: String| a@),
            quote@ =~= seq!['"'],
            space@ =~= seq![' '],
            line@ == command_line_text(executable_path@, views.subrange(0, i as int)),
        decreases args@.len() - i,
    {
        let arg = args[i].as_str();
        let bytes = arg.as_bytes();
        proof {
            lemma_index_of(bytes@, 32u8, 0);
        }
        let has_space = find_byte(bytes, 32u8, 0).is_some();
        assert(has_space == encode_utf8(arg@).contains(32u8)) by {
            if has_space {
                assert(bytes@[index_of(bytes@, 32u8, 0)] == 32u8);
            }
        }
        line.append(space);
        if has_space {
            line.append(quote);
            line.append(arg);
            line.append(quote);
        } else {
            line.append(arg);
        }
        assert(views.subrange(0, i as int + 1).drop_last() =~= views.subrange(0, i as int));
        i = i + 1;
    }
    assert(views.subrange(0, args@.len() as int) =~= views);
    line
}

} // verus!
