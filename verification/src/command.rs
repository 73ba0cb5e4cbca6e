//! What a command line asks for, once its options are taken out: one of the
//! four commands, with the operands that it needs.

use crate::text::{names_of, same_text, texts_of};
use vstd::prelude::*;

verus! {

/// The pieces of `s` between the separators: every `sep` ends a piece and
/// begins the next, so there is one piece more than there are separators, and
/// a piece may be empty.
pub open spec fn split(s: Seq<char>, sep: char) -> Seq<Seq<char>>
    decreases s.len(),
{
    if s.len() == 0 {
        seq![Seq::empty()]
    } else {
        let before = split(s.drop_last(), sep);
        if s.last() == sep {
            before.push(Seq::empty())
        } else {
            before.update(before.len() - 1, before.last().push(s.last()))
        }
    }
}

/// The pieces are never none.
pub proof fn lemma_split_len(s: Seq<char>, sep: char)
    ensures
        split(s, sep).len() >= 1,
    decreases s.len(),
{
    if s.len() > 0 {
        lemma_split_len(s.drop_last(), sep);
    }
}

/// No piece holds the separator, and the pieces with a separator between
/// each two of them are the text that was split.
pub proof fn lemma_split_joins(s: Seq<char>, sep: char)
    ensures
        forall|i: int|
            0 <= i < split(s, sep).len() ==> !(#[trigger] split(s, sep)[i]).contains(sep),
        join(split(s, sep), sep) == s,
    decreases s.len(),
{
    lemma_split_len(s, sep);
    if s.len() > 0 {
        let rest = s.drop_last();
        let before = split(rest, sep);
        let after = split(s, sep);
        lemma_split_joins(rest, sep);
        lemma_split_len(rest, sep);
        if s.last() == sep {
            assert(after.drop_last() =~= before);
        } else {
            let piece = before.last().push(s.last());
            assert(after.drop_last() =~= before.drop_last());
            if before.len() > 1 {
                let head = join(before.drop_last(), sep) + seq![sep];
                assert(head + piece =~= (head + before.last()).push(s.last()));
            }
        }
    }
}

/// The pieces put together, with a separator between each two.
pub open spec fn join(pieces: Seq<Seq<char>>, sep: char) -> Seq<char>
    decreases pieces.len(),
{
    if pieces.len() == 0 {
        Seq::empty()
    } else if pieces.len() == 1 {
        pieces[0]
    } else {
        join(pieces.drop_last(), sep) + seq![sep] + pieces.last()
    }
}

/// The tag names in a list that is written with commas between the names.
pub fn split_tags(list: &str) -> (r: Vec<String>)
    ensures
        names_of(r@) == split(list@, ','),
{
    let ghost s = list@;
    let n = list.unicode_len();
    let mut out: Vec<String> = Vec::new();
    let mut start: usize = 0;
    let mut i: usize = 0;
    assert(names_of(out@).push(s.subrange(0, 0)) =~~= split(s.take(0), ','));
    while i < n
        invariant
            start <= i <= n,
            n == s.len(),
            s == list@,
            names_of(out@).push(s.subrange(start as int, i as int)) == split(s.take(i as int), ','),
        decreases n - i,
    {
        let ghost piece = s.subrange(start as int, i as int);
        assert(s.take(i + 1).drop_last() =~= s.take(i as int));
        if list.get_char(i) == ',' {
            out.push(list.substring_char(start, i).to_owned());
            start = i + 1;
            assert(s.subrange(start as int, i + 1) =~= Seq::<char>::empty());
        } else {
            assert(piece.push(s[i as int]) =~= s.subrange(start as int, i + 1));
        }
        i += 1;
    }
    out.push(list.substring_char(start, n).to_owned());
    assert(s.take(n as int) =~= s);
    out
}

/// What the user asks for.
pub enum Command {
    /// Tag the file at `path` with `tags`.
    Tag { path: String, tags: Vec<String> },
    /// Look for the files that have all of `tags`.
    Search { tags: Vec<String> },
    /// List every tag.
    List,
    /// Show the tags of the files at `paths`.
    Cat { paths: Vec<String> },
}

/// A command with its texts as sequences of characters.
pub enum CommandView {
    Tag { path: Seq<char>, tags: Seq<Seq<char>> },
    Search { tags: Seq<Seq<char>> },
    List,
    Cat { paths: Seq<Seq<char>> },
}

impl View for Command {
    type V = CommandView;

    open spec fn view(&self) -> CommandView {
        match self {
            Command::Tag { path, tags } => CommandView::Tag { path: path@, tags: names_of(tags@) },
            Command::Search { tags } => CommandView::Search { tags: names_of(tags@) },
            Command::List => CommandView::List,
            Command::Cat { paths } => CommandView::Cat { paths: names_of(paths@) },
        }
    }
}

/// The command that the operands spell, if they spell one.
///
/// `tag` wants a path and a list of tags, and passes over what follows them;
/// `search` wants a list of tags and nothing else; `list` wants the word
/// `tags`; `cat` wants at least one path. Lists of tags are written with
/// commas.
pub open spec fn command_of(operands: Seq<Seq<char>>) -> Option<CommandView> {
    if operands.len() == 0 {
        None
    } else if operands[0] == "tag"@ {
        if operands.len() >= 3 {
            Some(CommandView::Tag { path: operands[1], tags: split(operands[2], ',') })
        } else {
            None
        }
    } else if operands[0] == "search"@ {
        if operands.len() == 2 {
            Some(CommandView::Search { tags: split(operands[1], ',') })
        } else {
            None
        }
    } else if operands[0] == "list"@ {
        if operands.len() >= 2 && operands[1] == "tags"@ {
            Some(CommandView::List)
        } else {
            None
        }
    } else if operands[0] == "cat"@ {
        if operands.len() >= 2 {
            Some(CommandView::Cat { paths: operands.skip(1) })
        } else {
            None
        }
    } else {
        None
    }
}

/// Reads the command from the operands of the command line.
pub fn parse_command(operands: &[&str]) -> (r: Option<Command>)
    ensures
        match r {
            Some(c) => command_of(texts_of(operands@)) == Some(c@),
            None => command_of(texts_of(operands@)) is None,
        },
{
    let ghost all = texts_of(operands@);
    if operands.len() == 0 {
        return None;
    }
    let word = operands[0];
    if same_text(word, "tag") {
        if operands.len() >= 3 {
            Some(Command::Tag { path: operands[1].to_owned(), tags: split_tags(operands[2]) })
        } else {
            None
        }
    } else if same_text(word, "search") {
        if operands.len() == 2 {
            Some(Command::Search { tags: split_tags(operands[1]) })
        } else {
            None
        }
    } else if same_text(word, "list") {
        if operands.len() >= 2 && same_text(operands[1], "tags") {
            Some(Command::List)
        } else {
            None
        }
    } else if same_text(word, "cat") {
        if operands.len() >= 2 {
            let mut paths: Vec<String> = Vec::new();
            let mut i: usize = 1;
            while i < operands.len()
                invariant
                    1 <= i <= operands.len(),
                    all == texts_of(operands@),
                    names_of(paths@) == all.subrange(1, i as int),
                decreases operands.len() - i,
            {
                paths.push(operands[i].to_owned());
                assert(all.subrange(1, i + 1) =~= all.subrange(1, i as int).push(all[i as int]));
                i += 1;
            }
            Some(Command::Cat { paths })
        } else {
            None
        }
    } else {
        None
    }
}

} // verus!
