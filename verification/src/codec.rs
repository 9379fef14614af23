//! The persisted-file format shared by the stores: newline-delimited
//! lines, written in full and read back in full.
use vstd::prelude::*;

use crate::text::{push_char, str_views};

verus! {

/// The newline-delimited encoding of a list of lines: each line followed
/// by one newline.
pub open spec fn encode_lines_spec(ls: Seq<Seq<char>>) -> Seq<char>
    decreases ls.len(),
{
    if ls.len() == 0 {
        Seq::<char>::empty()
    } else {
        ls.first() + seq!['\n'] + encode_lines_spec(ls.drop_first())
    }
}

/// Splitting `s` into lines, `cur` being the fragment read so far: a
/// newline ends a line; a non-empty final fragment still counts as one.
pub open spec fn split_acc(s: Seq<char>, cur: Seq<char>) -> Seq<Seq<char>>
    decreases s.len(),
{
    if s.len() == 0 {
        if cur.len() == 0 {
            Seq::<Seq<char>>::empty()
        } else {
            seq![cur]
        }
    } else if s[0] == '\n' {
        seq![cur] + split_acc(s.drop_first(), Seq::<char>::empty())
    } else {
        split_acc(s.drop_first(), cur.push(s[0]))
    }
}

/// The lines of a persisted file's content.
pub open spec fn split_lines_spec(s: Seq<char>) -> Seq<Seq<char>> {
    split_acc(s, Seq::<char>::empty())
}

/// Appending one line to an encoding appends the line and a newline.
proof fn lemma_encode_push(ls: Seq<Seq<char>>, l: Seq<char>)
    ensures
        encode_lines_spec(ls.push(l)) == encode_lines_spec(ls) + l + seq!['\n'],
    decreases ls.len(),
{
    if ls.len() == 0 {
        assert(ls.push(l)[0] == l);
        assert(ls.push(l).drop_first() =~= Seq::<Seq<char>>::empty());
        assert(encode_lines_spec(ls.push(l).drop_first()) =~= Seq::<char>::empty());
        assert(encode_lines_spec(ls.push(l)) =~= l + seq!['\n']);
        assert(encode_lines_spec(ls) + l + seq!['\n'] =~= l + seq!['\n']);
    } else {
        lemma_encode_push(ls.drop_first(), l);
        assert(ls.push(l).drop_first() =~= ls.drop_first().push(l));
        assert(ls.push(l)[0] == ls[0]);
        assert(ls.push(l).first() == ls.first());
        assert(encode_lines_spec(ls.push(l)) == ls.first() + seq!['\n'] + encode_lines_spec(
            ls.drop_first().push(l),
        ));
        assert(encode_lines_spec(ls.push(l)) =~= encode_lines_spec(ls) + l + seq!['\n']);
    }
}

/// Splitting a newline-terminated line off the front.
proof fn lemma_split_acc_line(line: Seq<char>, rest: Seq<char>, cur: Seq<char>)
    requires
        forall|i: int| 0 <= i < line.len() ==> line[i] != '\n',
    ensures
        split_acc(line + seq!['\n'] + rest, cur) == seq![cur + line] + split_acc(
            rest,
            Seq::<char>::empty(),
        ),
    decreases line.len(),
{
    let s = line + seq!['\n'] + rest;
    if line.len() == 0 {
        assert(s[0] == '\n');
        assert(s.drop_first() =~= rest);
        assert(cur + line =~= cur);
    } else {
        assert(s[0] == line[0]);
        assert(s[0] != '\n');
        lemma_split_acc_line(line.drop_first(), rest, cur.push(line[0]));
        assert(s.drop_first() =~= line.drop_first() + seq!['\n'] + rest);
        assert(cur.push(line[0]) + line.drop_first() =~= cur + line);
    }
}

/// Law: reading back an encoded line list yields exactly the lines that
/// were written, provided no line holds a newline itself.
pub proof fn lemma_lines_round_trip(ls: Seq<Seq<char>>)
    requires
        forall|i: int| 0 <= i < ls.len() ==> !#[trigger] ls[i].contains('\n'),
    ensures
        split_lines_spec(encode_lines_spec(ls)) == ls,
    decreases ls.len(),
{
    if ls.len() == 0 {
    } else {
        let first = ls.first();
        let rest = ls.drop_first();
        assert forall|i: int| 0 <= i < first.len() implies first[i] != '\n' by {
            if first[i] == '\n' {
                assert(first.contains('\n'));
            }
        }
        lemma_split_acc_line(first, encode_lines_spec(rest), Seq::<char>::empty());
        assert forall|i: int| 0 <= i < rest.len() implies !#[trigger] rest[i].contains('\n') by {
            assert(rest[i] == ls[i + 1]);
        }
        lemma_lines_round_trip(rest);
        assert(Seq::<char>::empty() + first =~= first);
        assert(seq![first] + rest =~= ls);
    }
}

/// Encodes lines for persistence: each line followed by one newline.
pub fn encode_lines(lines: &Vec<String>) -> (r: String)
    ensures
        r@ == encode_lines_spec(str_views(lines@)),
{
    let ghost ls = str_views(lines@);
    let mut out = String::new();
    proof {
        assert(ls.take(0) =~= Seq::<Seq<char>>::empty());
    }
    let mut i: usize = 0;
    while i < lines.len()
        invariant
            i <= lines@.len(),
            ls == str_views(lines@),
            out@ == encode_lines_spec(ls.take(i as int)),
        decreases lines@.len() - i,
    {
        out.append(lines[i].as_str());
        push_char(&mut out, '\n');
        proof {
            lemma_encode_push(ls.take(i as int), ls[i as int]);
            assert(ls.take(i + 1) =~= ls.take(i as int).push(ls[i as int]));
            assert(out@ =~= encode_lines_spec(ls.take(i + 1)));
        }
        i = i + 1;
    }
    proof {
        assert(ls.take(ls.len() as int) =~= ls);
    }
    out
}

/// Decodes a persisted file's content back into its lines.
pub fn decode_lines(content: &str) -> (r: Vec<String>)
    ensures
        str_views(r@) == split_lines_spec(content@),
{
    let n = content.unicode_len();
    let mut lines: Vec<String> = Vec::new();
    let mut cur = String::new();
    proof {
        assert(content@.skip(0) =~= content@);
        assert(str_views(lines@) + split_acc(content@, cur@) =~= split_lines_spec(content@));
    }
    let mut i: usize = 0;
    while i < n
        invariant
            i <= n,
            n == content@.len(),
            split_lines_spec(content@) == str_views(lines@) + split_acc(
                content@.skip(i as int),
                cur@,
            ),
        decreases n - i,
    {
        let c = content.get_char(i);
        let ghost tail = content@.skip(i as int);
        proof {
            assert(tail[0] == content@[i as int]);
            assert(tail.drop_first() =~= content@.skip(i + 1));
        }
        if c == '\n' {
            let done = cur;
            cur = String::new();
            lines.push(done);
            proof {
                assert(str_views(lines@) =~= str_views(lines@.drop_last()).push(done@));
                assert(str_views(lines@) + split_acc(content@.skip(i + 1), cur@)
                    =~= split_lines_spec(content@));
            }
        } else {
            push_char(&mut cur, c);
        }
        i = i + 1;
    }
    proof {
        assert(content@.skip(n as int) =~= Seq::<char>::empty());
    }
    if cur.as_str().unicode_len() > 0 {
        lines.push(cur);
        proof {
            assert(str_views(lines@) =~= str_views(lines@.drop_last()).push(
                lines@.last()@,
            ));
            assert(str_views(lines@) =~= split_lines_spec(content@));
        }
    } else {
        proof {
            assert(str_views(lines@) + split_acc(Seq::<char>::empty(), cur@) =~= str_views(
                lines@,
            ));
        }
    }
    lines
}

} // verus!
