use vstd::prelude::*;

use vstd::string::StringExecFns;

use crate::solver::matrix::mtx::decimal;
use crate::solver::matrix::mtx::push_decimal;

verus! {

// The text parts of the SPICE raw output files: file names and the list of
// variables.

/// Appends `c` to `s` (`String::push`).
#[verifier::external_body]
fn push_char(s: &mut String, c: char)
    ensures
        final(s)@ == old(s)@.push(c),
{
    s.push(c);
}

/// `c` is kept as it is in a file name: an ASCII letter or digit, `_`, `-`
/// or `.`.
pub open spec fn file_name_char(c: char) -> bool {
    ('a' <= c <= 'z') || ('A' <= c <= 'Z') || ('0' <= c <= '9') || c == '_' || c == '-' || c == '.'
}

/// The characters of `s` kept for a file name, spaces turned into `_`, the
/// others dropped.
pub open spec fn filename_chars(s: Seq<char>) -> Seq<char>
    decreases s.len(),
{
    if s.len() == 0 {
        Seq::empty()
    } else {
        let t = filename_chars(s.drop_last());
        let c = s.last();
        if file_name_char(c) {
            t.push(c)
        } else if c == ' ' {
            t.push('_')
        } else {
            t
        }
    }
}

/// A file name made of `input`: its letters, digits, `_`, `-` and `.`, with
/// spaces as `_`; `spicy` when nothing is left.
pub fn sanitize_filename(input: &str) -> (r: String)
    ensures
        r@ == if filename_chars(input@).len() == 0 {
            "spicy"@
        } else {
            filename_chars(input@)
        },
{
    let mut out = String::new();
    broadcast use vstd::string::group_string_axioms;
    for c in it: input.chars()
        invariant
            it.seq() == input@,
            out@ == filename_chars(input@.take(it.index())),
    {
        proof {
            assert(input@.take(it.index() + 1).drop_last() =~= input@.take(it.index()));
        }
        if ('a' <= c && c <= 'z') || ('A' <= c && c <= 'Z') || ('0' <= c && c <= '9') || c == '_' || c == '-' || c == '.' {
            push_char(&mut out, c);
        } else if c == ' ' {
            push_char(&mut out, '_');
        }
    }
    proof {
        assert(input@.take(input@.len() as int) =~= input@);
    }
    if out.unicode_len() == 0 {
        String::from_str("spicy")
    } else {
        out
    }
}

/// The variables named by `names`, in order, skipping empty names: each
/// `prefix + name + ")"` of the given kind.
pub open spec fn named_variables(names: Seq<String>, prefix: Seq<char>, kind: Seq<char>) -> Seq<(Seq<char>, Seq<char>)>
    decreases names.len(),
{
    if names.len() == 0 {
        Seq::empty()
    } else {
        let t = named_variables(names.drop_last(), prefix, kind);
        let s = names.last()@;
        if s.len() == 0 {
            t
        } else {
            t.push((prefix + s + ")"@, kind))
        }
    }
}

/// The names and kinds of `vars`.
pub open spec fn variables_view(vars: Seq<(String, String)>) -> Seq<(Seq<char>, Seq<char>)> {
    vars.map_values(|v: (String, String)| (v.0@, v.1@))
}

/// Appends the variables named by `names` (see `named_variables`).
fn push_named(vars: &mut Vec<(String, String)>, names: &[String], prefix: &str, kind: &str)
    ensures
        variables_view(final(vars)@) == variables_view(old(vars)@) + named_variables(names@, prefix@, kind@),
{
    let ghost start = variables_view(vars@);
    let mut i: usize = 0;
    while i < names.len()
        invariant
            i <= names@.len(),
            variables_view(vars@) == start + named_variables(names@.take(i as int), prefix@, kind@),
        decreases names@.len() - i,
    {
        proof {
            assert(names@.take(i + 1).drop_last() =~= names@.take(i as int));
        }
        let name = &names[i];
        if name.unicode_len() != 0 {
            let mut v = String::from_str(prefix);
            v.append(name.as_str());
            v.append(")");
            let ghost before = vars@;
            vars.push((v, String::from_str(kind)));
            proof {
                assert(variables_view(vars@) =~= variables_view(before).push((prefix@ + names@[i as int]@ + ")"@, kind@)));
            }
        }
        i = i + 1;
    }
    proof {
        assert(names@.take(names@.len() as int) =~= names@);
    }
}

/// The variables of a raw file besides the sweep: `V(node)` (voltage) for
/// each node, then `I(source)` (device current) for each source, skipping
/// empty names.
pub fn build_trace_variables_from_names(node_names: &[String], source_names: &[String]) -> (r: Vec<(String, String)>)
    ensures
        variables_view(r@) == named_variables(node_names@, "V("@, "voltage"@) + named_variables(
            source_names@,
            "I("@,
            "device_current"@,
        ),
{
    let mut vars: Vec<(String, String)> = Vec::new();
    proof {
        assert(variables_view(vars@) =~= Seq::empty());
    }
    // node voltages
    push_named(&mut vars, node_names, "V(", "voltage");
    // source currents
    push_named(&mut vars, source_names, "I(", "device_current");
    proof {
        assert(Seq::<(Seq<char>, Seq<char>)>::empty() + named_variables(node_names@, "V("@, "voltage"@)
            =~= named_variables(node_names@, "V("@, "voltage"@));
    }
    vars
}

/// The line of variable number `idx`: tab, number, tab, name, tab, kind,
/// newline.
pub open spec fn variable_line(idx: nat, name: Seq<char>, kind: Seq<char>) -> Seq<char> {
    "\t"@ + decimal(idx) + "\t"@ + name + "\t"@ + kind + "\n"@
}

/// The lines of the variables `vars`, numbered from `start`.
pub open spec fn variables_text(vars: Seq<(Seq<char>, Seq<char>)>, start: nat) -> Seq<char>
    decreases vars.len(),
{
    if vars.len() == 0 {
        Seq::empty()
    } else {
        variables_text(vars.drop_last(), start) + variable_line(
            (start + vars.len() - 1) as nat,
            vars.last().0,
            vars.last().1,
        )
    }
}

/// Appends the variable lines of a raw file to `out`: for each variable,
/// its number (from `start_index` on), name and kind, each after a tab.
pub fn write_variables_with_offset(out: &mut String, variables: &[(String, String)], start_index: usize)
    requires
        start_index + variables@.len() <= usize::MAX,
    ensures
        final(out)@ == old(out)@ + variables_text(variables_view(variables@), start_index as nat),
{
    let mut i: usize = 0;
    while i < variables.len()
        invariant
            i <= variables@.len(),
            start_index + variables@.len() <= usize::MAX,
            out@ == old(out)@ + variables_text(variables_view(variables@.take(i as int)), start_index as nat),
        decreases variables@.len() - i,
    {
        let ghost before = out@;
        out.append("\t");
        push_decimal(out, start_index + i);
        out.append("\t");
        out.append(variables[i].0.as_str());
        out.append("\t");
        out.append(variables[i].1.as_str());
        out.append("\n");
        proof {
            let vs = variables_view(variables@.take(i + 1));
            assert(vs.drop_last() =~= variables_view(variables@.take(i as int)));
            assert(vs.last() == (variables@[i as int].0@, variables@[i as int].1@));
            assert(out@ =~= before + variable_line((start_index + i) as nat, variables@[i as int].0@, variables@[i as int].1@));
        }
        i = i + 1;
    }
    proof {
        assert(variables@.take(variables@.len() as int) =~= variables@);
    }
}

} // verus!
