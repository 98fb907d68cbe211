//! Settings: lines of the form `KEY=value`.

use crate::strmap::{collect, lemma_collect_step, Pair, StrMap};
use crate::text::{split, split_on, split_once, split_once_on, trim, trimmed};
use crate::Pulse;
use vstd::prelude::*;

verus! {

/// The setting that a line gives: what stands before its first `=` and what
/// stands after it, each without the white space around it. A line without
/// `=` gives nothing.
pub open spec fn env_pair(line: Seq<char>) -> Option<Pair> {
    match split_once(line, '=') {
        Some(p) => Some((trim(p.0), trim(p.1))),
        None => None,
    }
}

/// What each line of the contents gives.
pub open spec fn env_items(contents: Seq<char>) -> Seq<Option<Pair>> {
    let lines = split(contents, '\n');
    Seq::new(lines.len(), |i: int| env_pair(lines[i]))
}

/// The settings that the contents of a file hold. A key that comes twice has
/// the later value.
pub open spec fn secrets_of(contents: Seq<char>) -> Seq<Pair> {
    collect(env_items(contents))
}

/// Reads the settings out of the contents of a file.
pub fn parse_env(contents: &str) -> (out: StrMap)
    ensures
        out.pairs() == secrets_of(contents@),
{
    let lines = split_on(contents, '\n');
    let ghost items = env_items(contents@);
    let mut out = StrMap::new();
    let mut i: usize = 0;
    assert(items.take(0) =~= Seq::empty());
    while i < lines.len()
        invariant
            lines.deep_view() == split(contents@, '\n'),
            items == env_items(contents@),
            i <= lines.len(),
            out.pairs() == collect(items.take(i as int)),
        decreases lines.len() - i,
    {
        assert(lines.deep_view()[i as int] == lines@[i as int]@);
        proof {
            lemma_collect_step(items, i as int);
        }
        match split_once_on(lines[i].as_str(), '=') {
            Some((key, value)) => {
                out.insert(trimmed(key.as_str()), trimmed(value.as_str()));
            },
            None => {},
        }
        i += 1;
    }
    assert(items.take(items.len() as int) =~= items);
    out
}

impl<H> Pulse<H> {
    /// Takes the settings that the contents of a file hold as the server's
    /// settings, in place of those it had, and returns them.
    pub fn load_env(&mut self, contents: &str) -> (out: StrMap)
        ensures
            out.pairs() == secrets_of(contents@),
            final(self).secrets.pairs() == secrets_of(contents@),
            final(self).registered() == old(self).registered(),
            final(self).port == old(self).port,
            final(self).method == old(self).method,
            final(self).path == old(self).path,
            final(self).url == old(self).url,
            final(self).user_agent == old(self).user_agent,
            final(self).content_type == old(self).content_type,
            final(self).content_length == old(self).content_length,
            final(self).is_https == old(self).is_https,
    {
        let secrets = parse_env(contents);
        self.secrets = secrets.clone();
        secrets
    }
}

} // verus!
