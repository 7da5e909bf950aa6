//! The qhull command line: the mode flag, the option flags, and the
//! `"qhull <mode> <options>"` string that is handed to `qh_new_qhull`.
use crate::text::{is_white_space, lemma_words_push_white_space, lemma_words_push_word, words};
use itertools::Itertools;
use vstd::prelude::*;

verus! {

/// What qhull is asked to compute.
#[derive(Clone, Copy, Debug)]
pub enum QhullMode {
    Voronoi,
}

/// The qhull options this library knows how to pass on.
#[derive(Clone, Copy, Debug)]
pub enum QhullOption {
    ScaleLast,
    KeepCoplanar,
    AddAPointAtInfinity,
    ExactPreMerges,
}

/// The qhull flag of a mode.
pub open spec fn mode_flag(mode: QhullMode) -> Seq<char> {
    match mode {
        QhullMode::Voronoi => "v"@,
    }
}

/// The qhull flag of an option.
pub open spec fn option_flag(option: QhullOption) -> Seq<char> {
    match option {
        QhullOption::ScaleLast => "Qbb"@,
        QhullOption::KeepCoplanar => "Qc"@,
        QhullOption::AddAPointAtInfinity => "Qz"@,
        QhullOption::ExactPreMerges => "Qx"@,
    }
}

/// `list[0] + sep + list[1] + sep + ... + list[n - 1]`, empty for an empty list.
pub open spec fn seq_join(list: Seq<Seq<char>>, sep: Seq<char>) -> Seq<char>
    decreases list.len(),
{
    if list.len() == 0 {
        Seq::empty()
    } else if list.len() == 1 {
        list[0]
    } else {
        seq_join(list.drop_last(), sep) + sep + list.last()
    }
}

/// The flags of a list of options, in order.
pub open spec fn option_flags(options: Seq<QhullOption>) -> Seq<Seq<char>> {
    options.map_values(|o: QhullOption| option_flag(o))
}

/// The full command line: `"qhull "`, the mode flag, a space, and the
/// option flags separated by single spaces.
pub open spec fn command_line(mode: QhullMode, options: Seq<QhullOption>) -> Seq<char> {
    "qhull "@ + mode_flag(mode) + " "@ + seq_join(option_flags(options), " "@)
}

/// `Itertools::join` over the parts: the first part, then `sep` and the
/// next part for each further one (each part is written through its
/// `Display`, which for a `String` is the string itself).
#[verifier::external_body]
fn join_strings(parts: &Vec<String>, sep: &str) -> (joined: String)
    ensures
        joined@ == seq_join(parts@.map_values(|p: String| p@), sep@),
{
    parts.iter().join(sep)
}

impl QhullOption {
    /// The flag that selects this option on qhull's command line.
    pub fn as_string(&self) -> (s: String)
        ensures
            s@ == option_flag(*self),
    {
        match self {
            QhullOption::ScaleLast => "Qbb",
            QhullOption::KeepCoplanar => "Qc",
            QhullOption::AddAPointAtInfinity => "Qz",
            QhullOption::ExactPreMerges => "Qx",
        }.to_owned()
    }
}

/// The command line for `mode` and `options`, such as `"qhull v Qbb Qz"`.
/// With no option it ends in a space: `"qhull v "`.
pub fn qhull_options(mode: QhullMode, options: Vec<QhullOption>) -> (line: String)
    ensures
        line@ == command_line(mode, options@),
{
    let mut flags: Vec<String> = Vec::new();
    let n = options.len();
    for k in 0..n
        invariant
            n == options@.len(),
            flags@.len() == k,
            forall|j: int| 0 <= j < k ==> #[trigger] flags@[j]@ == option_flag(options@[j]),
    {
        let flag = options[k].as_string();
        flags.push(flag);
    }
    let joined = join_strings(&flags, " ");
    assert(flags@.map_values(|p: String| p@) =~= option_flags(options@));
    let mode_option = match mode {
        QhullMode::Voronoi => "v",
    };
    let mut line = String::from_str("qhull ");
    line.append(mode_option);
    line.append(" ");
    line.append(joined.as_str());
    line
}

/// Each option has its own flag: no two options can be mistaken for each
/// other on the command line.
pub proof fn lemma_option_flags_distinct(a: QhullOption, b: QhullOption)
    requires
        a != b,
    ensures
        option_flag(a) != option_flag(b),
{
    reveal_strlit("Qbb");
    reveal_strlit("Qc");
    reveal_strlit("Qz");
    reveal_strlit("Qx");
    match a {
        QhullOption::ScaleLast => assert(option_flag(a).len() != option_flag(b).len()),
        QhullOption::KeepCoplanar => assert(option_flag(a)[1] != option_flag(b)[1] || option_flag(a).len() != option_flag(b).len()),
        QhullOption::AddAPointAtInfinity => assert(option_flag(a)[1] != option_flag(b)[1] || option_flag(a).len() != option_flag(b).len()),
        QhullOption::ExactPreMerges => assert(option_flag(a)[1] != option_flag(b)[1] || option_flag(a).len() != option_flag(b).len()),
    }
}

/// A flag is a non-empty word with no white space in it.
pub open spec fn is_word(w: Seq<char>) -> bool {
    w.len() > 0 && forall|j: int| 0 <= j < w.len() ==> !is_white_space(#[trigger] w[j])
}

/// Every mode flag and option flag is a word.
pub proof fn lemma_flags_are_words(mode: QhullMode, option: QhullOption)
    ensures
        is_word(mode_flag(mode)),
        is_word(option_flag(option)),
{
    reveal_strlit("v");
    reveal_strlit("Qbb");
    reveal_strlit("Qc");
    reveal_strlit("Qz");
    reveal_strlit("Qx");
}

/// Words joined by single spaces after a line that ends in white space
/// become that line's fields followed by the words, in order.
proof fn lemma_words_of_join(prefix: Seq<char>, list: Seq<Seq<char>>)
    requires
        prefix.len() == 0 || is_white_space(prefix.last()),
        forall|k: int| 0 <= k < list.len() ==> is_word(#[trigger] list[k]),
    ensures
        words(prefix + seq_join(list, " "@)) == words(prefix) + list,
    decreases list.len(),
{
    reveal_strlit(" ");
    if list.len() == 0 {
        assert(prefix + seq_join(list, " "@) =~= prefix);
        assert(words(prefix) + list =~= words(prefix));
    } else if list.len() == 1 {
        assert(is_word(list[0]));
        lemma_words_push_word(prefix, list[0]);
        assert(words(prefix) + list =~= words(prefix).push(list[0]));
    } else {
        let rest = list.drop_last();
        let last = list.last();
        assert forall|k: int| 0 <= k < rest.len() implies is_word(#[trigger] rest[k]) by {
            assert(rest[k] == list[k]);
        }
        assert(is_word(list[list.len() - 1]));
        lemma_words_of_join(prefix, rest);
        let before = prefix + seq_join(rest, " "@);
        assert(" "@ =~= seq![' ']);
        assert(prefix + seq_join(list, " "@) =~= before.push(' ') + last);
        lemma_words_push_white_space(before, ' ');
        assert(before.push(' ').last() == ' ');
        lemma_words_push_word(before.push(' '), last);
        assert(words(prefix) + list =~= (words(prefix) + rest).push(last));
    }
}

/// The fields of the command line are `qhull`, the mode flag, and the flag
/// of every option given, in order, repeats kept.
pub proof fn lemma_command_line_fields(mode: QhullMode, options: Seq<QhullOption>)
    ensures
        words(command_line(mode, options)) == seq!["qhull"@, mode_flag(mode)] + options.map_values(
            |o: QhullOption| option_flag(o),
        ),
{
    reveal_strlit("qhull ");
    reveal_strlit("qhull");
    reveal_strlit(" ");
    let flags = options.map_values(|o: QhullOption| option_flag(o));
    assert(option_flags(options) =~= flags);
    assert forall|k: int| 0 <= k < flags.len() implies is_word(#[trigger] flags[k]) by {
        lemma_flags_are_words(mode, options[k]);
    }
    lemma_flags_are_words(mode, QhullOption::ScaleLast);
    assert(is_word("qhull"@));
    lemma_words_push_word(Seq::empty(), "qhull"@);
    assert(Seq::<char>::empty() + "qhull"@ =~= "qhull"@);
    assert(words(Seq::<char>::empty()) =~= Seq::<Seq<char>>::empty());
    assert("qhull "@ =~= "qhull"@.push(' '));
    lemma_words_push_white_space("qhull"@, ' ');
    lemma_words_push_word("qhull "@, mode_flag(mode));
    let head = "qhull "@ + mode_flag(mode);
    assert(head + " "@ =~= head.push(' '));
    lemma_words_push_white_space(head, ' ');
    lemma_words_of_join(head + " "@, flags);
    assert(command_line(mode, options) =~= (head + " "@) + seq_join(flags, " "@));
    assert(words(head) =~= seq!["qhull"@, mode_flag(mode)]);
}

} // verus!
