//! The texts of the files, as they were when they were last read. A file that
//! could not be read has no text here.

use vstd::prelude::*;
use crate::path::{normalize, normalized};
use crate::text::{chars_eq, line_views, lines_of, split_lines, to_chars};

verus! {

/// One file that was read: its path and its lines.
pub struct SourceFile {
    pub path: Vec<char>,
    pub lines: Vec<Vec<char>>,
}

/// The files that were read, each path once.
pub struct Sources {
    files: Vec<SourceFile>,
}

/// The texts of the first `n` files of `files`, by path.
pub open spec fn texts_of(files: Seq<SourceFile>, n: int) -> Map<Seq<char>, Seq<Seq<char>>>
    decreases n,
{
    if n <= 0 {
        Map::empty()
    } else {
        texts_of(files, n - 1).insert(files[n - 1].path@, line_views(files[n - 1].lines@))
    }
}

/// Whether no two of `files` have one path.
pub open spec fn distinct_paths(files: Seq<SourceFile>) -> bool {
    forall|i: int, j: int| 0 <= i < j < files.len() ==> files[i].path@ != files[j].path@
}

/// The map of texts holds the files of the list and no others.
pub proof fn lemma_texts_of(files: Seq<SourceFile>, n: int)
    requires
        0 <= n <= files.len(),
        distinct_paths(files),
    ensures
        forall|i: int|
            0 <= i < n ==> texts_of(files, n).contains_key(#[trigger] files[i].path@) && texts_of(
                files,
                n,
            )[files[i].path@] == line_views(files[i].lines@),
        forall|p: Seq<char>| #[trigger]
            texts_of(files, n).contains_key(p) ==> exists|i: int|
                0 <= i < n && #[trigger] files[i].path@ == p,
    decreases n,
{
    if n > 0 {
        lemma_texts_of(files, n - 1);
        let prev = texts_of(files, n - 1);
        let cur = texts_of(files, n);
        assert forall|p: Seq<char>| #[trigger] cur.contains_key(p) implies exists|i: int|
            0 <= i < n && #[trigger] files[i].path@ == p by {
            if p == files[n - 1].path@ {
            } else {
                assert(prev.contains_key(p));
                let i = choose|i: int| 0 <= i < n - 1 && #[trigger] files[i].path@ == p;
                assert(files[i].path@ == p);
            }
        }
    }
}

impl View for Sources {
    type V = Map<Seq<char>, Seq<Seq<char>>>;

    closed spec fn view(&self) -> Map<Seq<char>, Seq<Seq<char>>> {
        texts_of(self.files@, self.files@.len() as int)
    }
}

impl Sources {
    /// What holds of every value of this type: no path is held twice.
    pub closed spec fn wf(&self) -> bool {
        distinct_paths(self.files@)
    }

    /// No texts.
    pub fn new() -> (s: Sources)
        ensures
            s.wf(),
            s@ == Map::<Seq<char>, Seq<Seq<char>>>::empty(),
    {
        Sources { files: Vec::new() }
    }

    /// Where the file `path` stands in the list.
    fn position(&self, path: &Vec<char>) -> (r: Option<usize>)
        requires
            self.wf(),
        ensures
            match r {
                Some(i) => i < self.files@.len() && self.files@[i as int].path@ == path@,
                None => forall|i: int| 0 <= i < self.files@.len() ==> self.files@[i].path@ != path@,
            },
    {
        let mut i: usize = 0;
        while i < self.files.len()
            invariant
                i <= self.files.len(),
                forall|j: int| 0 <= j < i ==> self.files@[j].path@ != path@,
            decreases self.files.len() - i,
        {
            if chars_eq(&self.files[i].path, path) {
                return Some(i);
            }
            i = i + 1;
        }
        None
    }

    /// Whether the file `path` has a text.
    pub fn contains(&self, path: &Vec<char>) -> (r: bool)
        requires
            self.wf(),
        ensures
            r == self@.contains_key(path@),
    {
        proof {
            lemma_texts_of(self.files@, self.files@.len() as int);
        }
        self.position(path).is_some()
    }

    /// The lines of the file `path`, where it has a text.
    pub fn lines(&self, path: &Vec<char>) -> (r: Option<&Vec<Vec<char>>>)
        requires
            self.wf(),
        ensures
            match r {
                Some(lines) => self@.contains_key(path@) && line_views(lines@) == self@[path@],
                None => !self@.contains_key(path@),
            },
    {
        proof {
            lemma_texts_of(self.files@, self.files@.len() as int);
        }
        match self.position(path) {
            Some(i) => Some(&self.files[i].lines),
            None => None,
        }
    }

    /// Forgets the text of the file `key`.
    #[verifier::rlimit(50)]
    fn forget(&mut self, key: &Vec<char>)
        requires
            old(self).wf(),
        ensures
            final(self).wf(),
            final(self)@ == old(self)@.remove(key@),
    {
        let ghost before = self.files@;
        proof {
            lemma_texts_of(before, before.len() as int);
        }
        match self.position(key) {
            Some(i) => {
                self.files.remove(i);
                proof {
                    let after = self.files@;
                    assert forall|a: int| 0 <= a < after.len() implies #[trigger] after[a]
                        == before[if a < i {
                        a
                    } else {
                        a + 1
                    }] by {}
                    assert(distinct_paths(after)) by {
                        assert forall|a: int, b: int| 0 <= a < b < after.len() implies after[a].path@
                            != after[b].path@ by {
                            let a0 = if a < i {
                                a
                            } else {
                                a + 1
                            };
                            let b0 = if b < i {
                                b
                            } else {
                                b + 1
                            };
                            assert(after[a] == before[a0] && after[b] == before[b0]);
                        }
                    }
                    lemma_texts_of(after, after.len() as int);
                    let goal = old(self)@.remove(key@);
                    assert forall|p: Seq<char>| self@.contains_key(p) <==> goal.contains_key(p) by {
                        if self@.contains_key(p) {
                            let k = choose|k: int|
                                0 <= k < after.len() && #[trigger] after[k].path@ == p;
                            let k0 = if k < i {
                                k
                            } else {
                                k + 1
                            };
                            assert(after[k] == before[k0]);
                            assert(before[k0].path@ == p);
                        }
                        if goal.contains_key(p) {
                            let k = choose|k: int|
                                0 <= k < before.len() && #[trigger] before[k].path@ == p;
                            if k < i {
                                assert(after[k] == before[k]);
                                assert(after[k].path@ == p);
                            } else {
                                assert(after[k - 1] == before[k]);
                                assert(after[k - 1].path@ == p);
                            }
                        }
                    }
                    assert forall|p: Seq<char>| self@.contains_key(p) implies #[trigger] self@[p]
                        == goal[p] by {
                        let k = choose|k: int| 0 <= k < after.len() && #[trigger] after[k].path@ == p;
                        let k0 = if k < i {
                            k
                        } else {
                            k + 1
                        };
                        assert(after[k] == before[k0]);
                        assert(before[k0].path@ == p);
                    }
                    assert(self@ =~= goal);
                }
            },
            None => {
                proof {
                    assert(self@ =~= old(self)@.remove(key@));
                }
            },
        }
    }

    /// Takes `text` as what the file `path` holds now.
    pub fn insert(&mut self, path: &str, text: &str)
        requires
            old(self).wf(),
        ensures
            final(self).wf(),
            final(self)@ == old(self)@.insert(normalized(path@), lines_of(text@)),
    {
        let key = normalize(&to_chars(path));
        let lines = split_lines(text);
        self.forget(&key);
        let ghost mid = self.files@;
        proof {
            lemma_texts_of(mid, mid.len() as int);
        }
        self.files.push(SourceFile { path: key, lines });
        proof {
            let after = self.files@;
            assert(distinct_paths(after)) by {
                assert forall|a: int, b: int| 0 <= a < b < after.len() implies after[a].path@
                    != after[b].path@ by {
                    if b == mid.len() {
                        assert(after[a] == mid[a]);
                        assert(texts_of(mid, mid.len() as int).contains_key(mid[a].path@));
                    } else {
                        assert(after[a] == mid[a] && after[b] == mid[b]);
                    }
                }
            }
            lemma_texts_agree(after, mid.len() as int, mid, mid.len() as int);
            assert(self@ =~= old(self)@.insert(normalized(path@), lines_of(text@)));
        }
    }

    /// Forgets the text of the file `path`.
    pub fn remove(&mut self, path: &str)
        requires
            old(self).wf(),
        ensures
            final(self).wf(),
            final(self)@ == old(self)@.remove(normalized(path@)),
    {
        let key = normalize(&to_chars(path));
        self.forget(&key);
    }
}

/// The map of texts of a list depends on its first `n` files alone.
pub proof fn lemma_texts_agree(a: Seq<SourceFile>, n: int, b: Seq<SourceFile>, m: int)
    requires
        0 <= n <= a.len(),
        n == m,
        m <= b.len(),
        forall|i: int| 0 <= i < n ==> a[i] == b[i],
    ensures
        texts_of(a, n) == texts_of(b, m),
    decreases n,
{
    if n > 0 {
        lemma_texts_agree(a, n - 1, b, m - 1);
    }
}

} // verus!
