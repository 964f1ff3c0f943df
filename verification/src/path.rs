//! Paths as text. A path is held with `/` between its parts, whatever the
//! machine; a backslash in one is read as a slash.

use vstd::prelude::*;
use crate::directive::{find_last, last_index_of, lemma_last_index_of};

verus! {

/// The pipeline stage that an entry file is compiled for.
#[derive(Clone, Copy, Debug, PartialEq, Eq, Structural)]
pub enum ShaderStage {
    Vertex,
    Fragment,
    Geometry,
    Compute,
    Unknown,
}

/// `c`, with a backslash turned into a slash.
pub open spec fn slash(c: char) -> char {
    if c == '\\' {
        '/'
    } else {
        c
    }
}

/// `s` with every backslash turned into a slash.
pub open spec fn normalized(s: Seq<char>) -> Seq<char> {
    s.map_values(|c: char| slash(c))
}

/// `base` and the relative path `rel` below it.
pub open spec fn joined(base: Seq<char>, rel: Seq<char>) -> Seq<char> {
    if base.len() == 0 {
        rel
    } else if base.last() == '/' {
        base + rel
    } else {
        base.push('/') + rel
    }
}

/// The file that a directive in `includer` names by `target`. A target that
/// begins with a slash is looked for below `work_space`; any other beside
/// `includer`, in its directory.
pub open spec fn resolved(work_space: Seq<char>, includer: Seq<char>, target: Seq<char>) -> Seq<
    char,
> {
    let t = normalized(target);
    if t.len() > 0 && t[0] == '/' {
        joined(normalized(work_space), t.drop_first())
    } else {
        let dir = normalized(includer);
        dir.subrange(0, last_index_of(dir, '/') + 1) + t
    }
}

/// What follows the last dot of a path's last part; empty where that part
/// holds no dot or begins with its only one.
pub open spec fn extension(path: Seq<char>) -> Seq<char> {
    let p = normalized(path);
    let dot = last_index_of(p, '.');
    let name = last_index_of(p, '/') + 1;
    if dot > name {
        p.subrange(dot + 1, p.len() as int)
    } else {
        Seq::empty()
    }
}

/// The stage that a file's name stands for.
pub open spec fn stage_of(path: Seq<char>) -> ShaderStage {
    let e = extension(path);
    if e == seq!['f', 's', 'h'] {
        ShaderStage::Fragment
    } else if e == seq!['v', 's', 'h'] {
        ShaderStage::Vertex
    } else if e == seq!['g', 's', 'h'] {
        ShaderStage::Geometry
    } else if e == seq!['c', 's', 'h'] {
        ShaderStage::Compute
    } else {
        ShaderStage::Unknown
    }
}

/// Turns every backslash of `s` into a slash.
pub fn normalize(s: &Vec<char>) -> (r: Vec<char>)
    ensures
        r@ == normalized(s@),
{
    let mut r: Vec<char> = Vec::new();
    let mut i: usize = 0;
    while i < s.len()
        invariant
            i <= s.len(),
            r@ == normalized(s@.take(i as int)),
        decreases s.len() - i,
    {
        let c = s[i];
        r.push(if c == '\\' {
            '/'
        } else {
            c
        });
        i = i + 1;
        assert(r@ =~= normalized(s@.take(i as int)));
    }
    assert(s@.take(s.len() as int) =~= s@);
    r
}

/// Appends the characters of `from` from `start` on to `out`.
fn append_all(out: &mut Vec<char>, from: &Vec<char>, start: usize)
    requires
        start <= from.len(),
    ensures
        final(out)@ == old(out)@ + from@.subrange(start as int, from.len() as int),
{
    let mut i: usize = start;
    while i < from.len()
        invariant
            start <= i <= from.len(),
            out@ == old(out)@ + from@.subrange(start as int, i as int),
        decreases from.len() - i,
    {
        out.push(from[i]);
        i = i + 1;
        assert(out@ =~= old(out)@ + from@.subrange(start as int, i as int));
    }
}

/// The path of the file that a directive in `includer` names by `target`.
pub fn resolve(work_space: &Vec<char>, includer: &Vec<char>, target: &Vec<char>) -> (r: Vec<char>)
    ensures
        r@ == resolved(work_space@, includer@, target@),
{
    let t = normalize(target);
    let mut r: Vec<char> = Vec::new();
    if t.len() > 0 && t[0] == '/' {
        let base = normalize(work_space);
        append_all(&mut r, &base, 0);
        assert(r@ =~= base@);
        if base.len() > 0 && base[base.len() - 1] != '/' {
            r.push('/');
        }
        append_all(&mut r, &t, 1);
        assert(t@.subrange(1, t.len() as int) =~= t@.drop_first());
        assert(r@ =~= resolved(work_space@, includer@, target@));
    } else {
        let dir = normalize(includer);
        let keep: usize = match find_last(&dir, '/') {
            Some(k) => k + 1,
            None => 0,
        };
        let mut i: usize = 0;
        while i < keep
            invariant
                i <= keep <= dir.len(),
                r@ == dir@.subrange(0, i as int),
            decreases keep - i,
        {
            r.push(dir[i]);
            i = i + 1;
            assert(r@ =~= dir@.subrange(0, i as int));
        }
        append_all(&mut r, &t, 0);
        assert(t@.subrange(0, t.len() as int) =~= t@);
    }
    r
}

/// The stage that the name of `path` stands for.
pub fn stage_for(path: &Vec<char>) -> (s: ShaderStage)
    ensures
        s == stage_of(path@),
{
    let p = normalize(path);
    let name: usize = match find_last(&p, '/') {
        Some(k) => k + 1,
        None => 0,
    };
    let dot: usize = match find_last(&p, '.') {
        Some(d) => d,
        None => {
            proof {
                lemma_last_index_of(p@, '/');
                assert(extension(path@).len() == 0);
                assert(seq!['f', 's', 'h'].len() == 3);
                assert(seq!['v', 's', 'h'].len() == 3);
                assert(seq!['g', 's', 'h'].len() == 3);
                assert(seq!['c', 's', 'h'].len() == 3);
            }
            return ShaderStage::Unknown;
        },
    };
    if dot <= name || p.len() - dot != 4 {
        proof {
            let e = extension(path@);
            assert(p.len() == path.len());
            assert(e.len() != 3);
            assert(seq!['f', 's', 'h'].len() == 3);
            assert(seq!['v', 's', 'h'].len() == 3);
            assert(seq!['g', 's', 'h'].len() == 3);
            assert(seq!['c', 's', 'h'].len() == 3);
        }
        return ShaderStage::Unknown;
    }
    let a = p[dot + 1];
    let b = p[dot + 2];
    let c = p[dot + 3];
    proof {
        let e = extension(path@);
        assert(e =~= seq![a, b, c]);
        assert(e == seq!['f', 's', 'h'] <==> a == 'f' && b == 's' && c == 'h') by {
            let l = seq!['f', 's', 'h'];
            if e == l {
                assert(e[0] == l[0] && e[1] == l[1] && e[2] == l[2]);
            }
            if a == 'f' && b == 's' && c == 'h' {
                assert(e =~= l);
            }
        }
        assert(e == seq!['v', 's', 'h'] <==> a == 'v' && b == 's' && c == 'h') by {
            let l = seq!['v', 's', 'h'];
            if e == l {
                assert(e[0] == l[0] && e[1] == l[1] && e[2] == l[2]);
            }
            if a == 'v' && b == 's' && c == 'h' {
                assert(e =~= l);
            }
        }
        assert(e == seq!['g', 's', 'h'] <==> a == 'g' && b == 's' && c == 'h') by {
            let l = seq!['g', 's', 'h'];
            if e == l {
                assert(e[0] == l[0] && e[1] == l[1] && e[2] == l[2]);
            }
            if a == 'g' && b == 's' && c == 'h' {
                assert(e =~= l);
            }
        }
        assert(e == seq!['c', 's', 'h'] <==> a == 'c' && b == 's' && c == 'h') by {
            let l = seq!['c', 's', 'h'];
            if e == l {
                assert(e[0] == l[0] && e[1] == l[1] && e[2] == l[2]);
            }
            if a == 'c' && b == 's' && c == 'h' {
                assert(e =~= l);
            }
        }
    }
    if b != 's' || c != 'h' {
        ShaderStage::Unknown
    } else if a == 'f' {
        ShaderStage::Fragment
    } else if a == 'v' {
        ShaderStage::Vertex
    } else if a == 'g' {
        ShaderStage::Geometry
    } else if a == 'c' {
        ShaderStage::Compute
    } else {
        ShaderStage::Unknown
    }
}

} // verus!
