//! Character classes and the low-level shape checks the hosts-file grammar is
//! built from: whitespace, decimal digits, splitting a token on dots, and the
//! structural IPv4 check (four nonempty dot-separated groups of digits).

use vstd::prelude::*;

verus! {

/// Whitespace as the line grammar understands it.
pub open spec fn is_ws_char(c: char) -> bool {
    c == ' ' || c == '\t' || c == '\r' || c == '\n'
}

/// Decimal digit.
pub open spec fn is_digit_char(c: char) -> bool {
    c == '0' || c == '1' || c == '2' || c == '3' || c == '4' || c == '5' || c == '6' || c == '7'
        || c == '8' || c == '9'
}

pub fn ws_char(c: char) -> (r: bool)
    ensures
        r == is_ws_char(c),
{
    c == ' ' || c == '\t' || c == '\r' || c == '\n'
}

pub fn digit_char(c: char) -> (r: bool)
    ensures
        r == is_digit_char(c),
{
    c == '0' || c == '1' || c == '2' || c == '3' || c == '4' || c == '5' || c == '6' || c == '7'
        || c == '8' || c == '9'
}

/// Split on '.', keeping empty groups; scans one character at a time, with
/// `cur` the group read so far.
pub open spec fn split_dots_rec(s: Seq<char>, cur: Seq<char>) -> Seq<Seq<char>>
    decreases s.len(),
{
    if s.len() == 0 {
        seq![cur]
    } else if s[0] == '.' {
        seq![cur] + split_dots_rec(s.drop_first(), Seq::empty())
    } else {
        split_dots_rec(s.drop_first(), cur.push(s[0]))
    }
}

pub open spec fn split_dots(s: Seq<char>) -> Seq<Seq<char>> {
    split_dots_rec(s, Seq::empty())
}

/// A nonempty, all-digit group.
pub open spec fn digits_group(g: Seq<char>) -> bool {
    g.len() > 0 && (forall|i: int| 0 <= i < g.len() ==> is_digit_char(g[i]))
}

/// The structural shape of an IPv4 address: exactly four dot-separated
/// nonempty decimal groups. No range check.
pub open spec fn is_ipv4_shaped(s: Seq<char>) -> bool {
    let gs = split_dots(s);
    gs.len() == 4 && (forall|i: int| 0 <= i < gs.len() ==> digits_group(#[trigger] gs[i]))
}

/// Leading whitespace removed.
pub open spec fn trim_front(s: Seq<char>) -> Seq<char>
    decreases s.len(),
{
    if s.len() > 0 && is_ws_char(s[0]) {
        trim_front(s.drop_first())
    } else {
        s
    }
}

/// Everything before the first '#'; the rest of the line is a comment.
pub open spec fn cut_comment(s: Seq<char>) -> Seq<char>
    decreases s.len(),
{
    if s.len() == 0 {
        s
    } else if s[0] == '#' {
        Seq::empty()
    } else {
        seq![s[0]] + cut_comment(s.drop_first())
    }
}

/// Split on runs of whitespace, dropping empty pieces; `cur` is the token
/// read so far.
pub open spec fn split_ws_rec(s: Seq<char>, cur: Seq<char>) -> Seq<Seq<char>>
    decreases s.len(),
{
    if s.len() == 0 {
        if cur.len() > 0 {
            seq![cur]
        } else {
            Seq::empty()
        }
    } else if is_ws_char(s[0]) {
        if cur.len() > 0 {
            seq![cur] + split_ws_rec(s.drop_first(), Seq::empty())
        } else {
            split_ws_rec(s.drop_first(), Seq::empty())
        }
    } else {
        split_ws_rec(s.drop_first(), cur.push(s[0]))
    }
}

pub open spec fn split_ws(s: Seq<char>) -> Seq<Seq<char>> {
    split_ws_rec(s, Seq::empty())
}

/// `trim_front` drops exactly the whitespace prefix.
pub proof fn lemma_trim_front_at(s: Seq<char>, i: int)
    requires
        0 <= i <= s.len(),
        forall|j: int| 0 <= j < i ==> is_ws_char(s[j]),
        i < s.len() ==> !is_ws_char(s[i]),
    ensures
        trim_front(s) == s.skip(i),
    decreases i,
{
    if i == 0 {
        assert(s.skip(0) =~= s);
    } else {
        assert(is_ws_char(s[0]));
        lemma_trim_front_at(s.drop_first(), i - 1);
        assert(s.drop_first().skip(i - 1) =~= s.skip(i));
    }
}

/// `cut_comment` keeps exactly the prefix before the first '#'.
pub proof fn lemma_cut_comment_at(s: Seq<char>, h: int)
    requires
        0 <= h <= s.len(),
        forall|j: int| 0 <= j < h ==> s[j] != '#',
        h < s.len() ==> s[h] == '#',
    ensures
        cut_comment(s) == s.take(h),
    decreases h,
{
    if h == 0 {
        assert(s.take(0) =~= Seq::<char>::empty());
        if s.len() == 0 {
            assert(cut_comment(s) == s);
            assert(s =~= s.take(0));
        }
    } else {
        assert(s[0] != '#');
        lemma_cut_comment_at(s.drop_first(), h - 1);
        assert(seq![s[0]] + s.drop_first().take(h - 1) =~= s.take(h));
    }
}

/// All characters are digits (the group may be empty).
pub open spec fn digits_only(g: Seq<char>) -> bool {
    forall|i: int| 0 <= i < g.len() ==> is_digit_char(g[i])
}

/// Scanning a run of non-whitespace moves it whole into the current token.
pub proof fn lemma_split_ws_rec_tok(t: Seq<char>, rest: Seq<char>, cur: Seq<char>)
    requires
        forall|i: int| 0 <= i < t.len() ==> !is_ws_char(#[trigger] t[i]),
    ensures
        split_ws_rec(t + rest, cur) == split_ws_rec(rest, cur + t),
    decreases t.len(),
{
    if t.len() == 0 {
        assert(t + rest =~= rest);
        assert(cur + t =~= cur);
    } else {
        assert((t + rest)[0] == t[0]);
        assert((t + rest).drop_first() =~= t.drop_first() + rest);
        lemma_split_ws_rec_tok(t.drop_first(), rest, cur.push(t[0]));
        assert(cur.push(t[0]) + t.drop_first() =~= cur + t);
    }
}

/// Trailing whitespace only flushes the current token.
pub proof fn lemma_split_ws_rec_allws(s: Seq<char>, cur: Seq<char>)
    requires
        forall|i: int| 0 <= i < s.len() ==> is_ws_char(#[trigger] s[i]),
    ensures
        split_ws_rec(s, cur) == if cur.len() > 0 {
            seq![cur]
        } else {
            Seq::<Seq<char>>::empty()
        },
    decreases s.len(),
{
    if s.len() == 0 {
    } else {
        lemma_split_ws_rec_allws(s.drop_first(), Seq::empty());
        if cur.len() > 0 {
            assert(seq![cur] + Seq::<Seq<char>>::empty() =~= seq![cur]);
        }
    }
}

/// Leading whitespace is dropped when no token is open.
pub proof fn lemma_split_ws_rec_skipws(lead: Seq<char>, rest: Seq<char>)
    requires
        forall|i: int| 0 <= i < lead.len() ==> is_ws_char(#[trigger] lead[i]),
    ensures
        split_ws_rec(lead + rest, Seq::empty()) == split_ws_rec(rest, Seq::empty()),
    decreases lead.len(),
{
    if lead.len() == 0 {
        assert(lead + rest =~= rest);
    } else {
        assert((lead + rest)[0] == lead[0]);
        assert((lead + rest).drop_first() =~= lead.drop_first() + rest);
        lemma_split_ws_rec_skipws(lead.drop_first(), rest);
    }
}

/// Two tokens separated by one space, with optional trailing whitespace,
/// split into exactly those two tokens.
pub proof fn lemma_split_ws_pair(t1: Seq<char>, t2: Seq<char>, trail: Seq<char>)
    requires
        t1.len() > 0,
        t2.len() > 0,
        forall|i: int| 0 <= i < t1.len() ==> !is_ws_char(#[trigger] t1[i]),
        forall|i: int| 0 <= i < t2.len() ==> !is_ws_char(#[trigger] t2[i]),
        forall|i: int| 0 <= i < trail.len() ==> is_ws_char(#[trigger] trail[i]),
    ensures
        split_ws(t1 + seq![' '] + t2 + trail) == seq![t1, t2],
{
    let s = t1 + seq![' '] + t2 + trail;
    let mid = seq![' '] + (t2 + trail);
    assert(s =~= t1 + mid);
    lemma_split_ws_rec_tok(t1, mid, Seq::empty());
    assert(Seq::<char>::empty() + t1 =~= t1);
    assert(mid[0] == ' ');
    assert(mid.drop_first() =~= t2 + trail);
    assert(split_ws_rec(mid, t1) == seq![t1] + split_ws_rec(t2 + trail, Seq::empty()));
    lemma_split_ws_rec_tok(t2, trail, Seq::empty());
    assert(Seq::<char>::empty() + t2 =~= t2);
    lemma_split_ws_rec_allws(trail, t2);
    assert(seq![t1] + seq![t2] =~= seq![t1, t2]);
}

/// An open token survives as a prefix of the first token produced.
pub proof fn lemma_split_ws_rec_first(s: Seq<char>, cur: Seq<char>)
    requires
        cur.len() > 0,
    ensures
        split_ws_rec(s, cur).len() >= 1,
        split_ws_rec(s, cur)[0].len() >= cur.len(),
        forall|i: int| 0 <= i < cur.len() ==> split_ws_rec(s, cur)[0][i] == cur[i],
    decreases s.len(),
{
    if s.len() == 0 {
    } else if is_ws_char(s[0]) {
        assert(split_ws_rec(s, cur)[0] == cur);
    } else {
        lemma_split_ws_rec_first(s.drop_first(), cur.push(s[0]));
        let r = split_ws_rec(s, cur);
        assert(r == split_ws_rec(s.drop_first(), cur.push(s[0])));
        assert forall|i: int| 0 <= i < cur.len() implies r[0][i] == cur[i] by {
            assert(r[0][i] == cur.push(s[0])[i]);
        }
    }
}

/// The first token starts with the first non-whitespace character.
pub proof fn lemma_first_token_char(s: Seq<char>, i: int)
    requires
        0 <= i < s.len(),
        forall|j: int| 0 <= j < i ==> is_ws_char(#[trigger] s[j]),
        !is_ws_char(s[i]),
    ensures
        split_ws(s).len() >= 1,
        split_ws(s)[0].len() >= 1,
        split_ws(s)[0][0] == s[i],
    decreases i,
{
    if i == 0 {
        lemma_split_ws_rec_first(s.drop_first(), seq![s[0]]);
        assert(seq![s[0]][0] == s[0]);
    } else {
        assert(is_ws_char(s[0]));
        lemma_first_token_char(s.drop_first(), i - 1);
    }
}

/// An open group survives as a prefix of the first group produced.
pub proof fn lemma_split_dots_rec_first(s: Seq<char>, cur: Seq<char>)
    ensures
        split_dots_rec(s, cur).len() >= 1,
        split_dots_rec(s, cur)[0].len() >= cur.len(),
        forall|i: int| 0 <= i < cur.len() ==> split_dots_rec(s, cur)[0][i] == cur[i],
    decreases s.len(),
{
    if s.len() == 0 {
    } else if s[0] == '.' {
        assert(split_dots_rec(s, cur)[0] == cur);
    } else {
        lemma_split_dots_rec_first(s.drop_first(), cur.push(s[0]));
        let r = split_dots_rec(s, cur);
        assert(r == split_dots_rec(s.drop_first(), cur.push(s[0])));
        assert forall|i: int| 0 <= i < cur.len() implies r[0][i] == cur[i] by {
            assert(r[0][i] == cur.push(s[0])[i]);
        }
    }
}

/// An IPv4-shaped token starts with a digit.
pub proof fn lemma_ipv4_first_digit(s: Seq<char>)
    requires
        is_ipv4_shaped(s),
    ensures
        s.len() > 0,
        is_digit_char(s[0]),
{
    if s.len() == 0 {
        assert(split_dots(s) == seq![Seq::<char>::empty()]);
        assert(split_dots(s).len() == 1);
    } else if s[0] == '.' {
        assert(split_dots(s)[0] == Seq::<char>::empty());
        assert(!digits_group(split_dots(s)[0]));
    } else {
        lemma_split_dots_rec_first(s.drop_first(), seq![s[0]]);
        assert(split_dots(s) == split_dots_rec(s.drop_first(), seq![s[0]]));
        assert(split_dots(s)[0][0] == seq![s[0]][0]);
        assert(split_dots(s)[0][0] == s[0]);
        assert(digits_group(split_dots(s)[0]));
    }
}

proof fn lemma_split_dots_chars(s: Seq<char>, cur: Seq<char>)
    requires
        forall|k: int|
            0 <= k < split_dots_rec(s, cur).len() ==> digits_only(
                #[trigger] split_dots_rec(s, cur)[k],
            ),
    ensures
        forall|i: int| 0 <= i < s.len() ==> is_digit_char(#[trigger] s[i]) || s[i] == '.',
    decreases s.len(),
{
    if s.len() == 0 {
    } else if s[0] == '.' {
        let r = split_dots_rec(s, cur);
        let rr = split_dots_rec(s.drop_first(), Seq::empty());
        assert(r == seq![cur] + rr);
        assert forall|k: int| 0 <= k < rr.len() implies digits_only(#[trigger] rr[k]) by {
            assert(rr[k] == r[k + 1]);
        }
        lemma_split_dots_chars(s.drop_first(), Seq::empty());
        assert forall|i: int|
            0 <= i < s.len() implies is_digit_char(#[trigger] s[i]) || s[i] == '.' by {
            if i > 0 {
                assert(s[i] == s.drop_first()[i - 1]);
            }
        }
    } else {
        let r = split_dots_rec(s, cur);
        assert(r == split_dots_rec(s.drop_first(), cur.push(s[0])));
        lemma_split_dots_chars(s.drop_first(), cur.push(s[0]));
        lemma_split_dots_rec_first(s.drop_first(), cur.push(s[0]));
        assert(r[0][cur.len() as int] == cur.push(s[0])[cur.len() as int]);
        assert(is_digit_char(s[0]));
        assert forall|i: int|
            0 <= i < s.len() implies is_digit_char(#[trigger] s[i]) || s[i] == '.' by {
            if i > 0 {
                assert(s[i] == s.drop_first()[i - 1]);
            }
        }
    }
}

/// Every character of an IPv4-shaped token is a digit or a dot.
pub proof fn lemma_ipv4_chars(s: Seq<char>)
    requires
        is_ipv4_shaped(s),
    ensures
        forall|i: int| 0 <= i < s.len() ==> is_digit_char(#[trigger] s[i]) || s[i] == '.',
{
    let gs = split_dots(s);
    assert(forall|k: int| 0 <= k < gs.len() ==> digits_only(#[trigger] gs[k]));
    lemma_split_dots_chars(s, Seq::empty());
}

/// Tokenizes `line[start..end]` on whitespace.
pub fn tokenize(line: &str, start: usize, end: usize) -> (toks: Vec<String>)
    requires
        start <= end <= line@.len(),
    ensures
        toks.deep_view() == split_ws(line@.subrange(start as int, end as int)),
{
    let mut toks: Vec<String> = Vec::new();
    let mut i: usize = start;
    let mut ts: usize = start;
    proof {
        assert(toks.deep_view() =~= Seq::<Seq<char>>::empty());
        assert(Seq::<Seq<char>>::empty() + split_ws_rec(
            line@.subrange(start as int, end as int),
            line@.subrange(start as int, start as int),
        ) =~= split_ws_rec(
            line@.subrange(start as int, end as int),
            line@.subrange(start as int, start as int),
        ));
        assert(line@.subrange(start as int, start as int) =~= Seq::<char>::empty());
    }
    while i < end
        invariant
            start <= ts <= i <= end <= line@.len(),
            toks.deep_view() + split_ws_rec(
                line@.subrange(i as int, end as int),
                line@.subrange(ts as int, i as int),
            ) == split_ws(line@.subrange(start as int, end as int)),
        decreases end - i,
    {
        let ghost rem = line@.subrange(i as int, end as int);
        let ghost cur = line@.subrange(ts as int, i as int);
        proof {
            assert(rem[0] == line@[i as int]);
            assert(rem.drop_first() =~= line@.subrange(i as int + 1, end as int));
        }
        let c = line.get_char(i);
        if ws_char(c) {
            if i > ts {
                let tok = String::from_str(line.substring_char(ts, i));
                let ghost old_toks = toks.deep_view();
                toks.push(tok);
                proof {
                    assert(toks.deep_view() =~= old_toks.push(cur));
                    assert(split_ws_rec(rem, cur) == seq![cur] + split_ws_rec(
                        rem.drop_first(),
                        Seq::empty(),
                    ));
                    assert(old_toks.push(cur) + split_ws_rec(rem.drop_first(), Seq::empty())
                        =~= old_toks + (seq![cur] + split_ws_rec(rem.drop_first(), Seq::empty())));
                    assert(line@.subrange(i as int + 1, i as int + 1) =~= Seq::<char>::empty());
                }
            } else {
                proof {
                    assert(cur =~= Seq::<char>::empty());
                    assert(line@.subrange(i as int + 1, i as int + 1) =~= Seq::<char>::empty());
                }
            }
            ts = i + 1;
        } else {
            proof {
                assert(cur.push(line@[i as int]) =~= line@.subrange(ts as int, i as int + 1));
            }
        }
        i = i + 1;
    }
    let ghost cur = line@.subrange(ts as int, end as int);
    proof {
        assert(line@.subrange(end as int, end as int) =~= Seq::<char>::empty());
    }
    if end > ts {
        let tok = String::from_str(line.substring_char(ts, end));
        let ghost old_toks = toks.deep_view();
        toks.push(tok);
        proof {
            assert(toks.deep_view() =~= old_toks.push(cur));
            assert(split_ws_rec(Seq::<char>::empty(), cur) == seq![cur]);
            assert(old_toks.push(cur) =~= old_toks + seq![cur]);
        }
    } else {
        proof {
            assert(cur =~= Seq::<char>::empty());
            assert(split_ws_rec(Seq::<char>::empty(), cur) == Seq::<Seq<char>>::empty());
            assert(toks.deep_view() + Seq::<Seq<char>>::empty() =~= toks.deep_view());
        }
    }
    toks
}

/// Checks a token for the IPv4 shape.
pub fn is_ipv4_token(s: &str) -> (r: bool)
    ensures
        r == is_ipv4_shaped(s@),
{
    let n = s.unicode_len();
    let mut i: usize = 0;
    let mut ts: usize = 0;
    let mut ngroups: usize = 0;
    let mut done_ok: bool = true;
    let mut cur_ok: bool = true;
    let ghost mut done: Seq<Seq<char>> = Seq::empty();
    proof {
        assert(s@.subrange(0, n as int) =~= s@);
        assert(s@.subrange(0, 0) =~= Seq::<char>::empty());
        assert(Seq::<Seq<char>>::empty() + split_dots_rec(s@, Seq::empty()) =~= split_dots_rec(
            s@,
            Seq::empty(),
        ));
    }
    while i < n
        invariant
            n == s@.len(),
            ts <= i <= n,
            ngroups <= i,
            ngroups == done.len(),
            split_dots(s@) == done + split_dots_rec(
                s@.subrange(i as int, n as int),
                s@.subrange(ts as int, i as int),
            ),
            done_ok == (forall|k: int| 0 <= k < done.len() ==> digits_group(#[trigger] done[k])),
            cur_ok == (forall|k: int| ts <= k < i ==> is_digit_char(s@[k])),
        decreases n - i,
    {
        let c = s.get_char(i);
        if c == '.' {
            let group_ok = i > ts && cur_ok;
            proof {
                let cur = s@.subrange(ts as int, i as int);
                assert(s@.subrange(i as int, n as int)[0] == s@[i as int]);
                assert(s@.subrange(i as int, n as int).drop_first() =~= s@.subrange(
                    i as int + 1,
                    n as int,
                ));
                let tail = split_dots_rec(s@.subrange(i as int + 1, n as int), Seq::empty());
                assert(split_dots_rec(s@.subrange(i as int, n as int), cur) == seq![cur] + tail);
                assert(done + (seq![cur] + tail) =~= done.push(cur) + tail);
                assert(s@.subrange(i as int + 1, i as int + 1) =~= Seq::<char>::empty());
                if i > ts && cur_ok {
                    assert forall|j: int| 0 <= j < cur.len() implies is_digit_char(cur[j]) by {
                        assert(cur[j] == s@[ts + j]);
                    }
                    assert(digits_group(cur));
                }
                if digits_group(cur) {
                    assert forall|k: int| ts <= k < i implies is_digit_char(s@[k]) by {
                        assert(s@[k] == cur[k - ts]);
                    }
                    assert(i > ts && cur_ok);
                }
                assert(digits_group(cur) == group_ok);
                let new_done = done.push(cur);
                assert(forall|k: int| 0 <= k < done.len() ==> #[trigger] new_done[k] == done[k]);
                assert(new_done.last() == cur);
                if done_ok && group_ok {
                    assert forall|k: int| 0 <= k < new_done.len() implies digits_group(
                        #[trigger] new_done[k],
                    ) by {
                        if k < done.len() {
                            assert(new_done[k] == done[k]);
                        } else {
                            assert(new_done[k] == cur);
                        }
                    }
                }
                if !group_ok {
                    assert(!digits_group(new_done[new_done.len() - 1]));
                }
                if !done_ok {
                    let bad = choose|k: int|
                        0 <= k < done.len() && !digits_group(#[trigger] done[k]);
                    assert(!digits_group(new_done[bad]));
                }
                assert((done_ok && group_ok) == (forall|k: int|
                    0 <= k < new_done.len() ==> digits_group(#[trigger] new_done[k])));
                done = new_done;
            }
            ngroups = ngroups + 1;
            done_ok = done_ok && group_ok;
            cur_ok = true;
            ts = i + 1;
        } else {
            let d = digit_char(c);
            proof {
                assert(s@.subrange(i as int, n as int)[0] == s@[i as int]);
                assert(s@.subrange(i as int, n as int).drop_first() =~= s@.subrange(
                    i as int + 1,
                    n as int,
                ));
                assert(s@.subrange(ts as int, i as int).push(s@[i as int]) =~= s@.subrange(
                    ts as int,
                    i as int + 1,
                ));
            }
            cur_ok = cur_ok && d;
            proof {
                if cur_ok {
                    assert(forall|k: int| ts <= k < i + 1 ==> is_digit_char(s@[k]));
                }
            }
        }
        i = i + 1;
    }
    let last_ok = i > ts && cur_ok;
    let r = ngroups == 3 && done_ok && last_ok;
    proof {
        let cur = s@.subrange(ts as int, n as int);
        assert(s@.subrange(n as int, n as int) =~= Seq::<char>::empty());
        assert(split_dots_rec(Seq::<char>::empty(), cur) == seq![cur]);
        assert(done + seq![cur] =~= done.push(cur));
        let gs = split_dots(s@);
        assert(gs == done.push(cur));
        assert(gs.len() == done.len() + 1);
        if n > ts && cur_ok {
            assert forall|j: int| 0 <= j < cur.len() implies is_digit_char(cur[j]) by {
                assert(cur[j] == s@[ts + j]);
            }
            assert(digits_group(cur));
        }
        if digits_group(cur) {
            assert forall|k: int| ts <= k < n implies is_digit_char(s@[k]) by {
                assert(s@[k] == cur[k - ts]);
            }
            assert(n > ts && cur_ok);
        }
        assert(digits_group(cur) == last_ok);
        if r {
            assert forall|k: int| 0 <= k < gs.len() implies digits_group(#[trigger] gs[k]) by {
                if k < done.len() {
                    assert(gs[k] == done[k]);
                } else {
                    assert(gs[k] == cur);
                }
            }
            assert(is_ipv4_shaped(s@));
        }
        if is_ipv4_shaped(s@) {
            assert(digits_group(gs[3]));
            assert(gs[3] == cur);
            assert forall|k: int| 0 <= k < done.len() implies digits_group(#[trigger] done[k]) by {
                assert(done[k] == gs[k]);
            }
            assert(r);
        }
    }
    r
}

} // verus!
