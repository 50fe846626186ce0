//! The launch and install arguments of the server instance.

use vstd::prelude::*;
use crate::path::{strings_model, join_with};

verus! {

/// A character with the Unicode `White_Space` property, as
/// `char::is_whitespace` reads it.
pub open spec fn is_white_space(c: char) -> bool {
    ||| '\u{9}' <= c <= '\u{d}'
    ||| c == ' '
    ||| c == '\u{85}'
    ||| c == '\u{a0}'
    ||| c == '\u{1680}'
    ||| '\u{2000}' <= c <= '\u{200a}'
    ||| c == '\u{2028}'
    ||| c == '\u{2029}'
    ||| c == '\u{202f}'
    ||| c == '\u{205f}'
    ||| c == '\u{3000}'
}

/// The words of `s`, as `str::split_whitespace` yields them: the maximal
/// runs of characters that are not white space, in order.
pub open spec fn words(s: Seq<char>) -> Seq<Seq<char>>
    decreases s.len(),
{
    if s.len() == 0 {
        Seq::empty()
    } else {
        let before = words(s.drop_last());
        let c = s.last();
        if is_white_space(c) {
            before
        } else if s.len() >= 2 && !is_white_space(s[s.len() - 2]) {
            before.update(before.len() - 1, before.last().push(c))
        } else {
            before.push(seq![c])
        }
    }
}

/// Whether `c` is white space.
pub fn char_is_white_space(c: char) -> (ws: bool)
    ensures
        ws == is_white_space(c),
{
    ('\u{9}' <= c && c <= '\u{d}') || c == ' ' || c == '\u{85}' || c == '\u{a0}' || c
        == '\u{1680}' || ('\u{2000}' <= c && c <= '\u{200a}') || c == '\u{2028}' || c
        == '\u{2029}' || c == '\u{202f}' || c == '\u{205f}' || c == '\u{3000}'
}

/// The launch arguments in `args`: its words, split at white space.
pub fn split_launch_args(args: &str) -> (parts: Vec<String>)
    ensures
        strings_model(parts@) == words(args@),
{
    let n = args.unicode_len();
    let mut parts: Vec<String> = Vec::new();
    let mut in_word = false;
    let mut start: usize = 0;
    let mut i: usize = 0;
    proof {
        assert(args@.take(0) =~= Seq::<char>::empty());
        assert(strings_model(parts@) =~= Seq::empty());
    }
    while i < n
        invariant
            n == args@.len(),
            start <= i <= n,
            in_word ==> start < i && !is_white_space(args@[i - 1]),
            !in_word ==> (i == 0 || is_white_space(args@[i - 1])),
            words(args@.take(i as int)) == if in_word {
                strings_model(parts@).push(args@.subrange(start as int, i as int))
            } else {
                strings_model(parts@)
            },
        decreases n - i,
    {
        let c = args.get_char(i);
        let ghost prefix = args@.take((i + 1) as int);
        proof {
            assert(prefix.drop_last() =~= args@.take(i as int));
            assert(prefix.last() == c);
            if i >= 1 {
                assert(prefix[i - 1] == args@[i - 1]);
            }
        }
        if char_is_white_space(c) {
            if in_word {
                let ghost before = strings_model(parts@);
                let word = args.substring_char(start, i);
                parts.push(String::from_str(word));
                proof {
                    assert(strings_model(parts@) =~= before.push(
                        args@.subrange(start as int, i as int),
                    ));
                }
            }
            in_word = false;
        } else {
            if in_word {
                proof {
                    assert(args@.subrange(start as int, (i + 1) as int) =~= args@.subrange(
                        start as int,
                        i as int,
                    ).push(c));
                }
            } else {
                start = i;
                in_word = true;
                proof {
                    assert(args@.subrange(start as int, (i + 1) as int) =~= seq![c]);
                }
            }
        }
        i = i + 1;
    }
    if in_word {
        let ghost before = strings_model(parts@);
        let word = args.substring_char(start, n);
        parts.push(String::from_str(word));
        proof {
            assert(strings_model(parts@) =~= before.push(args@.subrange(start as int, n as int)));
        }
    }
    proof {
        assert(args@.take(n as int) =~= args@);
    }
    parts
}

/// The install arguments for an install directory: the single argument
/// `+force_install_dir <install_path>`.
pub fn force_install_dir_args(install_path: &str) -> (args: Vec<String>)
    ensures
        strings_model(args@) == seq!["+force_install_dir "@ + install_path@],
{
    let mut arg = String::from_str("+force_install_dir ");
    arg.append(install_path);
    let mut args: Vec<String> = Vec::new();
    args.push(arg);
    assert(strings_model(args@) =~= seq!["+force_install_dir "@ + install_path@]);
    args
}

/// `s` with its white space collapsed: the characters that are not white
/// space, in order, with one space wherever white space stands between two
/// of them, and none at either end.
pub open spec fn collapse_white_space(s: Seq<char>) -> Seq<char>
    decreases s.len(),
{
    if s.len() == 0 {
        Seq::empty()
    } else {
        let rest = collapse_white_space(s.drop_last());
        let c = s.last();
        if is_white_space(c) {
            rest
        } else if s.len() >= 2 && is_white_space(s[s.len() - 2]) && rest.len() > 0 {
            rest.push(' ').push(c)
        } else {
            rest.push(c)
        }
    }
}

proof fn lemma_words_nonempty_after_word_char(s: Seq<char>)
    requires
        s.len() > 0,
        !is_white_space(s.last()),
    ensures
        words(s).len() > 0,
    decreases s.len(),
{
    if s.len() >= 2 && !is_white_space(s[s.len() - 2]) {
        let t = s.drop_last();
        assert(t.last() == s[s.len() - 2]);
        lemma_words_nonempty_after_word_char(t);
    }
}

/// Splitting at white space is exact: every word is non-empty and holds no
/// white space, and the words joined with single spaces give the text with
/// its white space collapsed, so words part exactly where white space
/// stands and nowhere else.
pub proof fn lemma_words_split_at_white_space(s: Seq<char>)
    ensures
        forall|k: int|
            0 <= k < words(s).len() ==> (#[trigger] words(s)[k]).len() > 0 && forall|j: int|
                0 <= j < words(s)[k].len() ==> !is_white_space(#[trigger] words(s)[k][j]),
        join_with(words(s), ' ') == collapse_white_space(s),
        (words(s).len() == 0) == (collapse_white_space(s).len() == 0),
    decreases s.len(),
{
    if s.len() > 0 {
        let t = s.drop_last();
        let before = words(t);
        let c = s.last();
        lemma_words_split_at_white_space(t);
        if !is_white_space(c) {
            if s.len() >= 2 && !is_white_space(s[s.len() - 2]) {
                assert(t.last() == s[s.len() - 2]);
                lemma_words_nonempty_after_word_char(t);
                let w = before.last().push(c);
                let after = before.update(before.len() - 1, w);
                assert(after.drop_last() =~= before.drop_last());
                assert(after.last() == w);
                if before.len() == 1 {
                    assert(join_with(after, ' ') == w);
                    assert(join_with(before, ' ') == before.last());
                } else {
                    assert(join_with(after, ' ') == join_with(before.drop_last(), ' ') + seq![' '] + w);
                    assert(join_with(before, ' ') == join_with(before.drop_last(), ' ') + seq![' ']
                        + before.last());
                }
                assert(join_with(after, ' ') =~= join_with(before, ' ').push(c));
                assert forall|k: int| 0 <= k < after.len() implies (#[trigger] after[k]).len() > 0
                    && forall|j: int|
                    0 <= j < after[k].len() ==> !is_white_space(#[trigger] after[k][j]) by {
                    if k == after.len() - 1 {
                        assert forall|j: int| 0 <= j < w.len() implies !is_white_space(
                            #[trigger] w[j],
                        ) by {
                            if j < w.len() - 1 {
                                assert(w[j] == before.last()[j]);
                                assert(before.last() == before[before.len() - 1]);
                            }
                        }
                    } else {
                        assert(after[k] == before[k]);
                    }
                }
            } else {
                let after = before.push(seq![c]);
                assert(after.drop_last() =~= before);
                assert(after.last() == seq![c]);
                if before.len() == 0 {
                    assert(join_with(after, ' ') == seq![c]);
                    assert(collapse_white_space(s) =~= seq![c]);
                } else {
                    assert(s.len() >= 2);
                    assert(join_with(after, ' ') =~= join_with(before, ' ').push(' ').push(c));
                }
                assert forall|k: int| 0 <= k < after.len() implies (#[trigger] after[k]).len() > 0
                    && forall|j: int|
                    0 <= j < after[k].len() ==> !is_white_space(#[trigger] after[k][j]) by {
                    if k < before.len() {
                        assert(after[k] == before[k]);
                    }
                }
            }
        }
    }
}

} // verus!
