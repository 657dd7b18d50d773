use vstd::prelude::*;
use vstd::string::*;

use crate::code_splitting::{Chunk, ChunkGraph, ChunkKind};
use crate::strings::{copy_str, str_eq};
use crate::types::ModuleIdx;

verus! {

/// The character of decimal digit `d`.
pub open spec fn digit_char(d: nat) -> char {
    if d == 0 {
        '0'
    } else if d == 1 {
        '1'
    } else if d == 2 {
        '2'
    } else if d == 3 {
        '3'
    } else if d == 4 {
        '4'
    } else if d == 5 {
        '5'
    } else if d == 6 {
        '6'
    } else if d == 7 {
        '7'
    } else if d == 8 {
        '8'
    } else {
        '9'
    }
}

/// The value of a decimal digit character.
pub open spec fn digit_value(c: char) -> nat {
    if c == '1' {
        1
    } else if c == '2' {
        2
    } else if c == '3' {
        3
    } else if c == '4' {
        4
    } else if c == '5' {
        5
    } else if c == '6' {
        6
    } else if c == '7' {
        7
    } else if c == '8' {
        8
    } else if c == '9' {
        9
    } else {
        0
    }
}

/// `n` written in decimal, without leading zeros.
pub open spec fn decimal(n: nat) -> Seq<char>
    decreases n,
{
    if n < 10 {
        seq![digit_char(n)]
    } else {
        decimal(n / 10).push(digit_char(n % 10))
    }
}

/// The number that a string of decimal digits stands for.
pub open spec fn decimal_value(s: Seq<char>) -> nat
    decreases s.len(),
{
    if s.len() == 0 {
        0
    } else {
        decimal_value(s.drop_last()) * 10 + digit_value(s.last())
    }
}

proof fn lemma_decimal_value(n: nat)
    ensures
        decimal_value(decimal(n)) == n,
    decreases n,
{
    if n >= 10 {
        lemma_decimal_value(n / 10);
        let d = decimal(n);
        assert(d.drop_last() =~= decimal(n / 10));
        assert(d.last() == digit_char(n % 10));
        assert(n % 10 < 10);
        assert(digit_value(digit_char(n % 10)) == n % 10);
        assert(n == (n / 10) * 10 + n % 10);
        assert(decimal_value(d) == decimal_value(d.drop_last()) * 10 + digit_value(d.last()));
    } else {
        let d = decimal(n);
        assert(d.drop_last() =~= Seq::<char>::empty());
        assert(decimal_value(Seq::<char>::empty()) == 0);
        assert(digit_value(digit_char(n)) == n);
        assert(decimal_value(d) == decimal_value(d.drop_last()) * 10 + digit_value(d.last()));
    }
}

/// Decimal writing is one to one.
pub proof fn lemma_decimal_injective(a: nat, b: nat)
    ensures
        decimal(a) == decimal(b) ==> a == b,
{
    lemma_decimal_value(a);
    lemma_decimal_value(b);
}

proof fn lemma_name_decimal_injective(name: Seq<char>, a: nat, b: nat)
    ensures
        name + decimal(a) == name + decimal(b) ==> a == b,
{
    if name + decimal(a) == name + decimal(b) {
        assert(decimal(a) =~= (name + decimal(a)).subrange(name.len() as int, (name + decimal(a)).len() as int));
        assert(decimal(b) =~= (name + decimal(b)).subrange(name.len() as int, (name + decimal(b)).len() as int));
        lemma_decimal_injective(a, b);
    }
}

/// `itoa::Buffer::format` on a `u32`: the decimal digits of `n`, as the crate's
/// documentation states ("conversion of integer primitives to decimal strings").
#[verifier::external_body]
fn format_count(n: u32) -> (s: String)
    ensures
        s@ == decimal(n as nat),
{
    let mut buffer = itoa::Buffer::new();
    buffer.format(n).to_string()
}

/// A name handed out before, with the count used to build the next candidate from it.
pub struct UsedName {
    pub name: String,
    pub next_count: u32,
}

/// The names handed out so far, for making new ones unique.
pub struct UniqueNames {
    pub used: Vec<UsedName>,
}

/// The names in use.
pub open spec fn used_names(used: Seq<UsedName>) -> Seq<Seq<char>> {
    Seq::new(used.len(), |i: int| used[i].name@)
}

/// Key `q` is `name` followed by the decimal digits of a count of at least `c`.
pub open spec fn matches_from(key: Seq<char>, name: Seq<char>, c: nat) -> bool {
    exists|k: nat| k >= c && key == name + decimal(k)
}

/// How many of the first `n` keys are `name` followed by a count of at least `c`.
spec fn matching_from(keys: Seq<Seq<char>>, name: Seq<char>, c: nat, n: int) -> nat
    decreases n,
{
    if n <= 0 {
        0
    } else {
        matching_from(keys, name, c, n - 1) + if matches_from(keys[n - 1], name, c) {
            1nat
        } else {
            0nat
        }
    }
}

proof fn lemma_matching_bound(keys: Seq<Seq<char>>, name: Seq<char>, c: nat, n: int)
    requires
        0 <= n,
    ensures
        matching_from(keys, name, c, n) <= n,
    decreases n,
{
    if n > 0 {
        lemma_matching_bound(keys, name, c, n - 1);
    }
}

/// Raising the count from `c` to `c + 1` drops key `q0`, which is `name` followed by `c`.
proof fn lemma_matching_step(keys: Seq<Seq<char>>, name: Seq<char>, c: nat, n: int, q0: int)
    requires
        0 <= n,
    ensures
        matching_from(keys, name, c + 1, n) <= matching_from(keys, name, c, n),
        0 <= q0 < n && keys[q0] == name + decimal(c) ==> matching_from(keys, name, c + 1, n) < matching_from(
            keys,
            name,
            c,
            n,
        ),
    decreases n,
{
    if n > 0 {
        lemma_matching_step(keys, name, c, n - 1, q0);
        let key = keys[n - 1];
        if matches_from(key, name, c + 1) {
            let k = choose|k: nat| k >= c + 1 && key == name + decimal(k);
            assert(matches_from(key, name, c));
        }
        if n - 1 == q0 && keys[q0] == name + decimal(c) {
            assert(matches_from(key, name, c));
            if matches_from(key, name, c + 1) {
                let k = choose|k: nat| k >= c + 1 && key == name + decimal(k);
                lemma_name_decimal_injective(name, k, c);
            }
        }
    }
}

/// The potential that each step of the search for a free name lowers: for each used
/// name, how many used names are `name` followed by a count at least its next count.
spec fn potential(used: Seq<UsedName>, name: Seq<char>, n: int) -> nat
    decreases n,
{
    if n <= 0 {
        0
    } else {
        potential(used, name, n - 1) + matching_from(used_names(used), name, used[n - 1].next_count as nat, used.len() as int)
    }
}

proof fn lemma_potential_update(u0: Seq<UsedName>, u1: Seq<UsedName>, name: Seq<char>, p: int, n: int)
    requires
        u0.len() == u1.len(),
        0 <= p < u0.len(),
        0 <= n <= u0.len(),
        used_names(u0) == used_names(u1),
        forall|i: int| 0 <= i < u0.len() && i != p ==> u1[i].next_count == u0[i].next_count,
        u1[p].next_count as nat == u0[p].next_count as nat + 1,
    ensures
        p < n ==> potential(u1, name, n) + matching_from(used_names(u0), name, u0[p].next_count as nat, u0.len() as int)
            == potential(u0, name, n) + matching_from(used_names(u0), name, u1[p].next_count as nat, u0.len() as int),
        p >= n ==> potential(u1, name, n) == potential(u0, name, n),
    decreases n,
{
    if n > 0 {
        lemma_potential_update(u0, u1, name, p, n - 1);
    }
}

/// The names in use with their counts.
pub open spec fn used_view(used: Seq<UsedName>) -> Seq<(Seq<char>, nat)> {
    Seq::new(used.len(), |i: int| (used[i].name@, used[i].next_count as nat))
}

/// One step of the search for a free name: when `cand` is in use, its count `c` goes up
/// by one and the next candidate is `name` followed by `c`; otherwise nothing changes.
pub open spec fn search_step(u: Seq<(Seq<char>, nat)>, name: Seq<char>, cand: Seq<char>) -> (Seq<(Seq<char>, nat)>, Seq<char>) {
    if exists|p: int| 0 <= p < u.len() && (#[trigger] u[p]).0 == cand {
        let p = choose|p: int| 0 <= p < u.len() && (#[trigger] u[p]).0 == cand;
        (u.update(p, (cand, u[p].1 + 1)), name + decimal(u[p].1))
    } else {
        (u, cand)
    }
}

/// The names with their counts, and the candidate, after `n` steps of the search for a
/// free name starting from `name`.
pub open spec fn search_run(u: Seq<(Seq<char>, nat)>, name: Seq<char>, n: nat) -> (Seq<(Seq<char>, nat)>, Seq<char>)
    decreases n,
{
    if n == 0 {
        (u, name)
    } else {
        let prev = search_run(u, name, (n - 1) as nat);
        search_step(prev.0, name, prev.1)
    }
}

impl UniqueNames {
    pub open spec fn names(&self) -> Seq<Seq<char>> {
        used_names(self.used@)
    }

    /// No name is in use twice, and each count is at least 2.
    pub open spec fn wf(&self) -> bool {
        &&& forall|i: int, j: int|
            0 <= i < self.used.len() && 0 <= j < self.used.len() && i != j ==> (#[trigger] self.used@[i]).name@
                != (#[trigger] self.used@[j]).name@
        &&& forall|i: int| 0 <= i < self.used.len() ==> (#[trigger] self.used@[i]).next_count >= 2
    }

    /// Counts stay far enough from `u32::MAX` for a search among the names in use.
    pub open spec fn room_for_search(&self) -> bool {
        forall|i: int| 0 <= i < self.used.len() ==> (#[trigger] self.used@[i]).next_count + self.used.len() + 2 <= u32::MAX
    }

    pub fn new() -> (r: Self)
        ensures
            r.wf(),
            r.names().len() == 0,
    {
        UniqueNames { used: Vec::new() }
    }

    fn find(&self, candidate: &String) -> (r: Option<usize>)
        requires
            self.wf(),
        ensures
            match r {
                Some(p) => p < self.used.len() && self.used@[p as int].name@ == candidate@,
                None => !self.names().contains(candidate@),
            },
    {
        let mut k: usize = 0;
        while k < self.used.len()
            invariant
                k <= self.used.len(),
                forall|j: int| 0 <= j < k ==> (#[trigger] self.used@[j]).name@ != candidate@,
            decreases self.used.len() - k,
        {
            if str_eq(self.used[k].name.as_str(), candidate.as_str()) {
                return Some(k);
            }
            k += 1;
        }
        proof {
            if self.names().contains(candidate@) {
                let j = choose|j: int| 0 <= j < self.names().len() && self.names()[j] == candidate@;
                assert(self.used@[j].name@ == candidate@);
            }
        }
        None
    }

    /// A name not handed out before: `name` itself when it is free; otherwise `name`
    /// followed by the count kept for the last candidate tried (starting from `name`),
    /// until a free one is found. The name is then in use, with count 2.
    pub fn make_unique_name(&mut self, name: &String) -> (r: String)
        requires
            old(self).wf(),
            old(self).room_for_search(),
        ensures
            final(self).wf(),
            !old(self).names().contains(r@),
            final(self).names() == old(self).names().push(r@),
            final(self).used@.last().next_count == 2,
            !old(self).names().contains(name@) ==> r@ == name@,
            old(self).names().contains(name@) ==> exists|k: nat| k >= 2 && r@ == name@ + decimal(k),
            exists|n: nat|
                {
                    let (u, c) = #[trigger] search_run(used_view(old(self).used@), name@, n);
                    &&& r@ == c
                    &&& !old(self).names().contains(c)
                    &&& forall|j: nat| j < n ==> old(self).names().contains(#[trigger] search_run(used_view(old(self).used@), name@, j).1)
                    &&& used_view(final(self).used@) == u.push((c, 2nat))
                },
            forall|i: int|
                0 <= i < old(self).used.len() ==> (#[trigger] final(self).used@[i]).next_count >= old(self).used@[i].next_count
                    && final(self).used@[i].next_count <= old(self).used@[i].next_count + old(self).used.len() + 1,
    {
        let ghost u0 = self.used@;
        let ghost n0 = self.used.len();
        let ghost keys = self.names();
        let mut candidate = copy_str(name);
        let ghost mut tried_suffix = false;
        let ghost v0 = used_view(u0);
        let ghost mut steps: nat = 0;
        proof {
            assert forall|i: int| 0 <= i < n0 implies (#[trigger] self.used@[i]).next_count + matching_from(
                keys,
                name@,
                self.used@[i].next_count as nat,
                n0 as int,
            ) <= u0[i].next_count + n0 by {
                lemma_matching_bound(keys, name@, self.used@[i].next_count as nat, n0 as int);
            }
        }
        loop
            invariant
                keys == old(self).names(),
                u0 == old(self).used@,
                n0 == old(self).used.len(),
                self.used.len() == n0,
                self.names() == keys,
                self.wf(),
                u0.len() == n0,
                used_names(u0) == keys,
                forall|i: int| 0 <= i < n0 ==> (#[trigger] self.used@[i]).next_count >= u0[i].next_count,
                forall|i: int|
                    0 <= i < n0 ==> (#[trigger] self.used@[i]).next_count + matching_from(
                        keys,
                        name@,
                        self.used@[i].next_count as nat,
                        n0 as int,
                    ) <= u0[i].next_count + n0 + 1,
                keys.contains(candidate@) ==> forall|i: int|
                    0 <= i < n0 ==> (#[trigger] self.used@[i]).next_count + matching_from(
                        keys,
                        name@,
                        self.used@[i].next_count as nat,
                        n0 as int,
                    ) <= u0[i].next_count + n0,
                forall|i: int| 0 <= i < n0 ==> (#[trigger] u0[i]).next_count + n0 + 2 <= u32::MAX,
                !tried_suffix ==> candidate@ == name@,
                v0 == used_view(u0),
                search_run(v0, name@, steps) == (used_view(self.used@), candidate@),
                forall|j: nat| j < steps ==> keys.contains(#[trigger] search_run(v0, name@, j).1),
                tried_suffix ==> keys.contains(name@),
                tried_suffix ==> exists|k: nat| k >= 2 && candidate@ == name@ + decimal(k),
                !tried_suffix ==> forall|i: int| 0 <= i < n0 ==> (#[trigger] self.used@[i]).next_count == u0[i].next_count,
            decreases 2 * potential(self.used@, name@, n0 as int) + if keys.contains(candidate@) {
                1int
            } else {
                0int
            },
        {
            match self.find(&candidate) {
                Some(p) => {
                    let c = self.used[p].next_count;
                    proof {
                        assert(keys.contains(candidate@)) by {
                            assert(keys[p as int] == candidate@);
                        }
                        lemma_matching_bound(keys, name@, c as nat, n0 as int);
                    }
                    let ghost ub = self.used@;
                    let ghost cand0 = candidate@;
                    self.used[p].next_count = c + 1;
                    let suffix = format_count(c);
                    let mut next = copy_str(name);
                    next.append(suffix.as_str());
                    candidate = next;
                    proof {
                        let vb = used_view(ub);
                        assert(vb[p as int].0 == cand0);
                        let p2 = choose|p2: int| 0 <= p2 < vb.len() && (#[trigger] vb[p2]).0 == cand0;
                        if p2 != p as int {
                            assert(ub[p2].name@ != ub[p as int].name@);
                        }
                        assert(used_view(self.used@) =~= vb.update(p as int, (cand0, vb[p as int].1 + 1)));
                        assert(search_step(vb, name@, cand0) == (used_view(self.used@), candidate@));
                        assert(keys.contains(search_run(v0, name@, steps).1));
                        steps = steps + 1;
                        assert forall|j: nat| j < steps implies keys.contains(#[trigger] search_run(v0, name@, j).1) by {
                            if j + 1 < steps {
                            }
                        }
                        tried_suffix = true;
                        let ua = self.used@;
                        assert(used_names(ua) =~= used_names(ub));
                        assert(candidate@ == name@ + decimal(c as nat));
                        lemma_matching_step(keys, name@, c as nat, n0 as int, 0);
                        if keys.contains(candidate@) {
                            let q0 = choose|q0: int| 0 <= q0 < keys.len() && keys[q0] == candidate@;
                            lemma_matching_step(keys, name@, c as nat, n0 as int, q0);
                        }
                        lemma_potential_update(ub, ua, name@, p as int, n0 as int);
                        assert forall|i: int| 0 <= i < n0 implies (#[trigger] ua[i]).next_count + matching_from(
                            keys,
                            name@,
                            ua[i].next_count as nat,
                            n0 as int,
                        ) <= u0[i].next_count + n0 + 1 by {
                            if i != p {
                                assert(ua[i] == ub[i]);
                            }
                        }
                        if keys.contains(candidate@) {
                            assert forall|i: int| 0 <= i < n0 implies (#[trigger] ua[i]).next_count + matching_from(
                                keys,
                                name@,
                                ua[i].next_count as nat,
                                n0 as int,
                            ) <= u0[i].next_count + n0 by {
                                if i != p {
                                    assert(ua[i] == ub[i]);
                                }
                            }
                        }
                        assert(c >= 2);
                    }
                },
                None => {
                    let ghost ub = self.used@;
                    self.used.push(UsedName { name: copy_str(&candidate), next_count: 2 });
                    proof {
                        let ua = self.used@;
                        assert(used_view(ua) =~= used_view(ub).push((candidate@, 2nat)));
                        assert(!keys.contains(candidate@));
                        let sr = search_run(v0, name@, steps);
                        assert(sr.1 == candidate@ && used_view(ua) == sr.0.push((sr.1, 2nat)));
                        assert(used_names(ua) =~= keys.push(candidate@));
                        assert forall|i: int, j: int|
                            0 <= i < ua.len() && 0 <= j < ua.len() && i != j implies (#[trigger] ua[i]).name@
                            != (#[trigger] ua[j]).name@ by {
                            if i < n0 && j < n0 {
                                assert(ua[i] == ub[i] && ua[j] == ub[j]);
                            } else if i < n0 {
                                assert(keys[i] == ua[i].name@);
                            } else {
                                assert(keys[j] == ua[j].name@);
                            }
                        }
                        assert forall|i: int| 0 <= i < n0 implies (#[trigger] ua[i]).next_count >= u0[i].next_count
                            && ua[i].next_count <= u0[i].next_count + n0 + 1 by {
                            assert(ua[i] == ub[i]);
                        }
                    }
                    return candidate;
                },
            }
        }
    }
}


/// A character that file names on some platform cannot hold: a path separator, one of
/// `? < > : * | "`, or a control character.
pub open spec fn illegal_in_file_name(c: char) -> bool {
    c == '/' || c == '?' || c == '<' || c == '>' || c == '\\' || c == ':' || c == '*' || c == '|' || c == '"'
        || (c as u32) <= 0x1f || (0x80 <= (c as u32) && (c as u32) <= 0x9f)
}

/// What holds of a sanitized name on every platform: no illegal character, at most 255
/// characters, and only characters of `source`.
pub open spec fn sanitized_from(r: Seq<char>, source: Seq<char>) -> bool {
    &&& forall|i: int| 0 <= i < r.len() ==> !illegal_in_file_name(#[trigger] r[i])
    &&& r.len() <= 255
    &&& forall|i: int| 0 <= i < r.len() ==> source.contains(#[trigger] r[i])
}

/// `c` is the lower-case ASCII letter `l` in either case.
pub open spec fn letter_ci(c: char, l: char) -> bool {
    c == l || (c as u32) + 32 == (l as u32)
}

/// `s` starts with the three lower-case letters of `w`, in any case.
pub open spec fn starts_ci3(s: Seq<char>, w: Seq<char>) -> bool {
    s.len() >= 3 && w.len() == 3 && letter_ci(s[0], w[0]) && letter_ci(s[1], w[1]) && letter_ci(s[2], w[2])
}

/// A name that Windows reserves for a device (`con`, `prn`, `aux`, `nul`, `com0` to `com9`,
/// `lpt0` to `lpt9`, in any case), alone or followed by a `.` and anything.
pub open spec fn device_name(s: Seq<char>) -> bool {
    let k: int = if starts_ci3(s, "con"@) || starts_ci3(s, "prn"@) || starts_ci3(s, "aux"@) || starts_ci3(s, "nul"@) {
        3
    } else if (starts_ci3(s, "com"@) || starts_ci3(s, "lpt"@)) && s.len() >= 4 && '0' <= s[3] <= '9' {
        4
    } else {
        -1
    };
    k >= 0 && (s.len() == k || s[k] == '.')
}

/// A file name that sanitizing leaves as it is on every platform: not empty, at most 63
/// characters (so at most 255 bytes), no illegal character, not made of dots only, not
/// ending in `.` or a space, and not a device name.
pub open spec fn clean_file_name(s: Seq<char>) -> bool {
    &&& 0 < s.len() <= 63
    &&& forall|i: int| 0 <= i < s.len() ==> !illegal_in_file_name(#[trigger] s[i])
    &&& exists|i: int| 0 <= i < s.len() && #[trigger] s[i] != '.'
    &&& s.last() != '.' && s.last() != ' '
    &&& !device_name(s)
}

/// `name` without the characters that file names cannot hold.
pub open spec fn legal_chars(name: Seq<char>) -> Seq<char> {
    name.filter(|c: char| !illegal_in_file_name(c))
}

/// `sanitize_filename::sanitize`. Its source removes the characters `/ ? < > \ : * | "`
/// and the control characters U+0000 to U+001F and U+0080 to U+009F, empties a name made
/// of dots only, and cuts the result to at most 255 bytes; on Windows (chosen when the
/// crate is compiled) it also removes device names and trailing dots and spaces. The
/// contract states what holds on every platform: the result has no illegal character,
/// at most 255 characters, only characters of the name; and when the name without its
/// illegal characters ([`legal_chars`]) is clean ([`clean_file_name`]), neither the
/// Windows rules nor the cut apply, and the result is exactly that. What the Windows rules
/// and the cut make of other names is left unsaid, as it depends on the platform.
#[verifier::external_body]
fn sanitize_name(name: &String) -> (r: String)
    ensures
        sanitized_from(r@, name@),
        clean_file_name(legal_chars(name@)) ==> r@ == legal_chars(name@),
{
    sanitize_filename::sanitize(name.as_str())
}

/// The part of `id` after its last `/`.
pub open spec fn last_segment(id: Seq<char>) -> Seq<char>
    decreases id.len(),
{
    if id.len() == 0 || id.last() == '/' {
        Seq::empty()
    } else {
        last_segment(id.drop_last()).push(id.last())
    }
}

/// The position of the last `.` in `f`, or -1.
pub open spec fn last_dot(f: Seq<char>) -> int
    decreases f.len(),
{
    if f.len() == 0 {
        -1
    } else if f.last() == '.' {
        f.len() - 1
    } else {
        last_dot(f.drop_last())
    }
}

/// The stem of a file name, as `Path::file_stem` documents it: the whole name when it has
/// no `.` or only a leading one, else the part before the last `.`.
pub open spec fn stem_of_name(f: Seq<char>) -> Seq<char> {
    let d = last_dot(f);
    if d <= 0 {
        f
    } else {
        f.subrange(0, d)
    }
}

/// A path that every platform splits the same way, at `/` alone, and whose last part is
/// a file name: no `\` or `:`, no empty part between two `/`, and a last part that is
/// neither empty nor `.` nor `..`.
pub open spec fn plain_path(id: Seq<char>) -> bool {
    let f = last_segment(id);
    &&& forall|i: int| 0 <= i < id.len() ==> #[trigger] id[i] != '\\' && id[i] != ':'
    &&& forall|i: int| 0 <= i < id.len() - 1 ==> !(#[trigger] id[i] == '/' && id[i + 1] == '/')
    &&& f.len() > 0
    &&& f != "."@
    &&& f != ".."@
}

/// `std::path::Path::file_stem` of `id`: the final component of the path without its
/// last extension. For a [`plain_path`] the contract states the stem exactly, as the
/// documentation describes it; for other paths, where which characters separate
/// components depends on the platform, it states only that a stem, when there is one,
/// is a non-empty piece of `id`.
#[verifier::external_body]
fn file_stem(id: &String) -> (r: Option<String>)
    ensures
        r matches Some(s) ==> s@.len() > 0 && exists|a: int| 0 <= a && a + s@.len() <= id@.len() && #[trigger] id@.subrange(a, a + s@.len() as int) == s@,
        plain_path(id@) ==> r is Some && r->0@ == stem_of_name(last_segment(id@)),
{
    std::path::Path::new(id.as_str()).file_stem().and_then(|f| f.to_str()).map(|f| f.to_string())
}

/// The last module of `modules` (in execution order) that is not the runtime module.
pub open spec fn last_non_runtime(modules: Seq<ModuleIdx>, runtime_id: ModuleIdx) -> Option<ModuleIdx>
    decreases modules.len(),
{
    if modules.len() == 0 {
        None
    } else if modules.last() != runtime_id {
        Some(modules.last())
    } else {
        last_non_runtime(modules.drop_last(), runtime_id)
    }
}

/// The name a chunk is given before file names are made: its own name when it has one;
/// for the chunk of a user entry, the sanitized file stem of the entry's id ("input"
/// when it has none), which for a plain path is the stem without its illegal characters
/// when that is a clean name (for other ids, what the platform's path and file-name rules
/// give is only bounded); for the chunk of another entry, the entry's representative name;
/// for a common chunk, the representative name of its last executed module that is not
/// the runtime module ("chunk" when there is none).
pub open spec fn pre_name_ok(
    chunk: Chunk,
    module_ids: Seq<Seq<char>>,
    repr_names: Seq<Seq<char>>,
    runtime_id: ModuleIdx,
    r: Seq<char>,
) -> bool {
    match chunk.name {
        Some(n) => r == n@,
        None => match chunk.kind {
            ChunkKind::EntryPoint { is_user_defined, bit, module } => if is_user_defined {
                let id = module_ids[module as int];
                let stem = stem_of_name(last_segment(id));
                if plain_path(id) && clean_file_name(legal_chars(stem)) {
                    r == legal_chars(stem)
                } else {
                    r == "input"@ || sanitized_from(r, id)
                }
            } else {
                r == repr_names[module as int]
            },
            ChunkKind::Common => match last_non_runtime(chunk.modules@, runtime_id) {
                Some(m) => r == repr_names[m as int],
                None => r == "chunk"@,
            },
        },
    }
}

/// The module ids of chunk entries and chunk modules lie in the tables.
pub open spec fn chunk_modules_in(chunk: Chunk, n: nat) -> bool {
    &&& chunk.kind matches ChunkKind::EntryPoint { module, .. } ==> module < n
    &&& forall|k: int| 0 <= k < chunk.modules.len() ==> #[trigger] chunk.modules@[k] < n
}

fn last_non_runtime_module(modules: &Vec<ModuleIdx>, runtime_id: ModuleIdx) -> (r: Option<ModuleIdx>)
    ensures
        r == last_non_runtime(modules@, runtime_id),
{
    let mut k: usize = modules.len();
    proof {
        assert(modules@.subrange(0, k as int) =~= modules@);
    }
    while k > 0
        invariant
            k <= modules.len(),
            last_non_runtime(modules@, runtime_id) == last_non_runtime(modules@.subrange(0, k as int), runtime_id),
        decreases k,
    {
        let ghost sub = modules@.subrange(0, k as int);
        if modules[k - 1] != runtime_id {
            return Some(modules[k - 1]);
        }
        proof {
            assert(sub.drop_last() =~= modules@.subrange(0, k - 1));
        }
        k -= 1;
    }
    proof {
        assert(modules@.subrange(0, 0) =~= Seq::<ModuleIdx>::empty());
    }
    None
}

/// The name of a chunk before file names are made (see [`pre_name_ok`]). The
/// representative names of modules come sanitized.
pub fn pre_generated_chunk_name(
    chunk: &Chunk,
    module_ids: &Vec<String>,
    sanitized_repr_names: &Vec<String>,
    runtime_id: ModuleIdx,
) -> (r: String)
    requires
        module_ids.len() == sanitized_repr_names.len(),
        chunk_modules_in(*chunk, module_ids.len() as nat),
    ensures
        pre_name_ok(*chunk, views_of_strings(module_ids@), views_of_strings(sanitized_repr_names@), runtime_id, r@),
{
    proof {
        reveal_strlit("input");
        reveal_strlit("chunk");
    }
    match &chunk.name {
        Some(n) => copy_str(n),
        None => match chunk.kind {
            ChunkKind::EntryPoint { is_user_defined, bit: _, module } => {
                if is_user_defined {
                    match file_stem(&module_ids[module]) {
                        Some(stem) => {
                            let r = sanitize_name(&stem);
                            proof {
                                let id = module_ids@[module as int]@;
                                assert forall|i: int| 0 <= i < r@.len() implies id.contains(#[trigger] r@[i]) by {
                                    let c = r@[i];
                                    let j = choose|j: int| 0 <= j < stem@.len() && stem@[j] == c;
                                    let a = choose|a: int|
                                        0 <= a && a + stem@.len() <= id.len() && #[trigger] id.subrange(a, a + stem@.len() as int)
                                            == stem@;
                                    assert(id.subrange(a, a + stem@.len() as int)[j] == id[a + j]);
                                }
                            }
                            r
                        },
                        None => "input".to_string(),
                    }
                } else {
                    copy_str(&sanitized_repr_names[module])
                }
            },
            ChunkKind::Common => match last_non_runtime_module(&chunk.modules, runtime_id) {
                Some(m) => {
                    proof {
                        lemma_last_non_runtime_in(chunk.modules@, runtime_id);
                    }
                    copy_str(&sanitized_repr_names[m])
                },
                None => "chunk".to_string(),
            },
        },
    }
}

proof fn lemma_last_non_runtime_in(modules: Seq<ModuleIdx>, runtime_id: ModuleIdx)
    ensures
        last_non_runtime(modules, runtime_id) matches Some(m) ==> modules.contains(m),
    decreases modules.len(),
{
    if modules.len() > 0 {
        lemma_last_non_runtime_in(modules.drop_last(), runtime_id);
        if modules.last() != runtime_id {
            assert(modules[modules.len() - 1] == modules.last());
        } else if let Some(m) = last_non_runtime(modules.drop_last(), runtime_id) {
            let i = choose|i: int| 0 <= i < modules.drop_last().len() && modules.drop_last()[i] == m;
            assert(modules[i] == m);
        }
    }
}

/// The views of strings.
pub open spec fn views_of_strings(v: Seq<String>) -> Seq<Seq<char>> {
    Seq::new(v.len(), |i: int| v[i]@)
}

/// The items of `s` at their first occurrence, in order.
pub open spec fn first_seen(s: Seq<usize>) -> Seq<usize>
    decreases s.len(),
{
    if s.len() == 0 {
        Seq::empty()
    } else {
        let p = first_seen(s.drop_last());
        if p.contains(s.last()) {
            p
        } else {
            p.push(s.last())
        }
    }
}

proof fn lemma_first_seen_contains(s: Seq<usize>, x: usize)
    ensures
        first_seen(s).contains(x) <==> s.contains(x),
    decreases s.len(),
{
    if s.len() > 0 {
        let dl = s.drop_last();
        let l = s.last();
        lemma_first_seen_contains(dl, x);
        lemma_first_seen_contains(dl, l);
        let p = first_seen(dl);
        assert(s =~= dl.push(l));
        assert(s.contains(x) <==> (dl.contains(x) || x == l)) by {
            if s.contains(x) && x != l {
                let j = choose|j: int| 0 <= j < s.len() && s[j] == x;
                assert(dl[j] == x);
            }
            if dl.contains(x) {
                let j = choose|j: int| 0 <= j < dl.len() && dl[j] == x;
                assert(s[j] == x);
            }
            if x == l {
                assert(s[s.len() - 1] == x);
            }
        }
        if !p.contains(l) {
            let q = p.push(l);
            assert(q.contains(x) <==> (p.contains(x) || x == l)) by {
                if q.contains(x) && x != l {
                    let j = choose|j: int| 0 <= j < q.len() && q[j] == x;
                    assert(p[j] == x);
                }
                if p.contains(x) {
                    let j = choose|j: int| 0 <= j < p.len() && p[j] == x;
                    assert(q[j] == x);
                }
                if x == l {
                    assert(q[p.len() as int] == x);
                }
            }
        }
    }
}

/// The chunks of a naming result, in order.
pub open spec fn chunk_order(r: Seq<(usize, String)>) -> Seq<usize> {
    Seq::new(r.len(), |i: int| r[i].0)
}

/// The name of the chunk does not depend on the platform: it has one of its own, or it is
/// not a user entry, or the entry's id is a plain path whose stem, without its illegal
/// characters, is a clean name.
pub open spec fn name_fixed(chunk: Chunk, module_ids: Seq<Seq<char>>) -> bool {
    match chunk.name {
        Some(_) => true,
        None => match chunk.kind {
            ChunkKind::EntryPoint { is_user_defined, bit, module } => !is_user_defined || {
                let id = module_ids[module as int];
                plain_path(id) && clean_file_name(legal_chars(stem_of_name(last_segment(id))))
            },
            ChunkKind::Common => true,
        },
    }
}

/// A chunk's name is a function of the chunk and the module tables wherever it does not
/// depend on the platform: two names that both meet [`pre_name_ok`] are equal.
pub proof fn lemma_chunk_name_determined(
    chunk: Chunk,
    module_ids: Seq<Seq<char>>,
    repr_names: Seq<Seq<char>>,
    runtime_id: ModuleIdx,
    r1: Seq<char>,
    r2: Seq<char>,
)
    requires
        pre_name_ok(chunk, module_ids, repr_names, runtime_id, r1),
        pre_name_ok(chunk, module_ids, repr_names, runtime_id, r2),
        name_fixed(chunk, module_ids),
    ensures
        r1 == r2,
{
}

/// What naming the chunks gives: the chunks in output order, each once, each with its
/// pre-generated name.
pub open spec fn chunk_names_ok(
    graph: ChunkGraph,
    module_ids: Seq<Seq<char>>,
    repr_names: Seq<Seq<char>>,
    runtime_id: ModuleIdx,
    r: Seq<(usize, String)>,
) -> bool {
    &&& chunk_order(r) == first_seen(graph.sorted_chunk_idx_vec@)
    &&& forall|k: int|
        0 <= k < r.len() ==> (#[trigger] r[k]).0 < graph.chunk_table.len() && pre_name_ok(
            graph.chunk_table@[r[k].0 as int],
            module_ids,
            repr_names,
            runtime_id,
            r[k].1@,
        )
}

/// Naming the chunks gives the same result for the same chunk graph and module tables, in
/// every run and on every platform, when no chunk's name depends on the platform
/// ([`name_fixed`]).
pub proof fn lemma_chunk_names_determined(
    graph: ChunkGraph,
    module_ids: Seq<Seq<char>>,
    repr_names: Seq<Seq<char>>,
    runtime_id: ModuleIdx,
    a: Seq<(usize, String)>,
    b: Seq<(usize, String)>,
)
    requires
        chunk_names_ok(graph, module_ids, repr_names, runtime_id, a),
        chunk_names_ok(graph, module_ids, repr_names, runtime_id, b),
        forall|c: int| 0 <= c < graph.chunk_table.len() ==> name_fixed(#[trigger] graph.chunk_table@[c], module_ids),
    ensures
        chunk_order(a) == chunk_order(b),
        forall|k: int| 0 <= k < a.len() ==> (#[trigger] a[k]).1@ == b[k].1@,
{
    assert(chunk_order(a).len() == a.len() && chunk_order(b).len() == b.len());
    assert forall|k: int| 0 <= k < a.len() implies (#[trigger] a[k]).1@ == b[k].1@ by {
        assert(chunk_order(a)[k] == chunk_order(b)[k]);
        assert(chunk_order(a)[k] == a[k].0 && chunk_order(b)[k] == b[k].0);
        assert(pre_name_ok(graph.chunk_table@[b[k].0 as int], module_ids, repr_names, runtime_id, b[k].1@));
        assert(a[k].0 == b[k].0);
        lemma_chunk_name_determined(
            graph.chunk_table@[a[k].0 as int],
            module_ids,
            repr_names,
            runtime_id,
            a[k].1@,
            b[k].1@,
        );
    }
}

/// Names every chunk of the graph, in output order, with its pre-generated name (see
/// [`pre_name_ok`], computed from the chunks as they were), once; returns each chunk with
/// its name, in the order named.
pub fn generate_chunk_names(
    graph: &mut ChunkGraph,
    module_ids: &Vec<String>,
    sanitized_repr_names: &Vec<String>,
    runtime_id: ModuleIdx,
) -> (r: Vec<(usize, String)>)
    requires
        module_ids.len() == sanitized_repr_names.len(),
        forall|c: int| 0 <= c < old(graph).chunk_table.len() ==> chunk_modules_in(#[trigger] old(graph).chunk_table@[c], module_ids.len() as nat),
        forall|k: int| 0 <= k < old(graph).sorted_chunk_idx_vec.len() ==> #[trigger] old(graph).sorted_chunk_idx_vec@[k] < old(graph).chunk_table.len(),
    ensures
        final(graph).chunk_table.len() == old(graph).chunk_table.len(),
        final(graph).sorted_chunk_idx_vec == old(graph).sorted_chunk_idx_vec,
        final(graph).module_to_chunk == old(graph).module_to_chunk,
        final(graph).entry_module_to_entry_chunk == old(graph).entry_module_to_entry_chunk,
        forall|k: int| 0 <= k < r.len() ==> {
            let (c, name) = #[trigger] r@[k];
            &&& old(graph).sorted_chunk_idx_vec@.contains(c)
            &&& c < old(graph).chunk_table.len()
            &&& pre_name_ok(old(graph).chunk_table@[c as int], views_of_strings(module_ids@), views_of_strings(sanitized_repr_names@), runtime_id, name@)
            &&& final(graph).chunk_table@[c as int].name matches Some(n) && n@ == name@
        },
        forall|k1: int, k2: int| 0 <= k1 < k2 < r.len() ==> (#[trigger] r@[k1]).0 != (#[trigger] r@[k2]).0,
        forall|c: usize| #[trigger] old(graph).sorted_chunk_idx_vec@.contains(c) ==> exists|k: int| 0 <= k < r.len() && r@[k].0 == c,
        chunk_order(r@) == first_seen(old(graph).sorted_chunk_idx_vec@),
        chunk_names_ok(*old(graph), views_of_strings(module_ids@), views_of_strings(sanitized_repr_names@), runtime_id, r@),
        forall|c: int|
            0 <= c < old(graph).chunk_table.len() ==> (#[trigger] final(graph).chunk_table@[c]).modules == old(graph).chunk_table@[c].modules
                && final(graph).chunk_table@[c].kind == old(graph).chunk_table@[c].kind
                && final(graph).chunk_table@[c].bits == old(graph).chunk_table@[c].bits
                && final(graph).chunk_table@[c].exec_order == old(graph).chunk_table@[c].exec_order,
        forall|c: int|
            0 <= c < old(graph).chunk_table.len() && !old(graph).sorted_chunk_idx_vec@.contains(c as usize) ==> (#[trigger] final(graph).chunk_table@[c]).name == old(graph).chunk_table@[c].name,
{
    let n = graph.chunk_table.len();
    let ghost mids = views_of_strings(module_ids@);
    let ghost reprs = views_of_strings(sanitized_repr_names@);
    let mut pre_names: Vec<String> = Vec::new();
    let mut c: usize = 0;
    while c < n
        invariant
            c <= n,
            n == graph.chunk_table.len(),
            pre_names.len() == c,
            module_ids.len() == sanitized_repr_names.len(),
            mids == views_of_strings(module_ids@),
            reprs == views_of_strings(sanitized_repr_names@),
            forall|q: int| 0 <= q < n ==> chunk_modules_in(#[trigger] graph.chunk_table@[q], module_ids.len() as nat),
            forall|q: int| 0 <= q < c ==> pre_name_ok(#[trigger] graph.chunk_table@[q], mids, reprs, runtime_id, pre_names@[q]@),
        decreases n - c,
    {
        let name = pre_generated_chunk_name(&graph.chunk_table[c], module_ids, sanitized_repr_names, runtime_id);
        pre_names.push(name);
        c += 1;
    }
    let ghost g0 = *graph;
    let mut named: Vec<bool> = Vec::new();
    let mut q: usize = 0;
    while q < n
        invariant
            q <= n,
            named.len() == q,
            forall|i: int| 0 <= i < q ==> !(#[trigger] named@[i]),
        decreases n - q,
    {
        named.push(false);
        q += 1;
    }
    let mut r: Vec<(usize, String)> = Vec::new();
    proof {
        assert(chunk_order(r@) =~= first_seen(graph.sorted_chunk_idx_vec@.subrange(0, 0)));
    }
    let mut k: usize = 0;
    while k < graph.sorted_chunk_idx_vec.len()
        invariant
            g0 == *old(graph),
            n == g0.chunk_table.len(),
            graph.chunk_table.len() == n,
            named.len() == n,
            pre_names.len() == n,
            graph.sorted_chunk_idx_vec == g0.sorted_chunk_idx_vec,
            graph.module_to_chunk == g0.module_to_chunk,
            graph.entry_module_to_entry_chunk == g0.entry_module_to_entry_chunk,
            k <= graph.sorted_chunk_idx_vec.len(),
            forall|j: int| 0 <= j < g0.sorted_chunk_idx_vec.len() ==> #[trigger] g0.sorted_chunk_idx_vec@[j] < n,
            forall|q: int| 0 <= q < n ==> pre_name_ok(#[trigger] g0.chunk_table@[q], mids, reprs, runtime_id, pre_names@[q]@),
            forall|q: int|
                0 <= q < n ==> (#[trigger] graph.chunk_table@[q]).modules == g0.chunk_table@[q].modules
                    && graph.chunk_table@[q].kind == g0.chunk_table@[q].kind
                    && graph.chunk_table@[q].bits == g0.chunk_table@[q].bits
                    && graph.chunk_table@[q].exec_order == g0.chunk_table@[q].exec_order,
            forall|q: int| 0 <= q < n && !(#[trigger] named@[q]) ==> graph.chunk_table@[q].name == g0.chunk_table@[q].name,
            forall|q: int| 0 <= q < n && #[trigger] named@[q] ==> g0.sorted_chunk_idx_vec@.subrange(0, k as int).contains(q as usize),
            forall|j: int| 0 <= j < k ==> #[trigger] named@[g0.sorted_chunk_idx_vec@[j] as int],
            forall|i: int| 0 <= i < r.len() ==> {
                let (c, name) = #[trigger] r@[i];
                &&& c < n
                &&& named@[c as int]
                &&& g0.sorted_chunk_idx_vec@.contains(c)
                &&& name@ == pre_names@[c as int]@
                &&& graph.chunk_table@[c as int].name matches Some(nm) && nm@ == name@
            },
            forall|q: int| 0 <= q < n && #[trigger] named@[q] ==> exists|i: int| 0 <= i < r.len() && r@[i].0 == q as usize,
            forall|i1: int, i2: int| 0 <= i1 < i2 < r.len() ==> (#[trigger] r@[i1]).0 != (#[trigger] r@[i2]).0,
            chunk_order(r@) == first_seen(g0.sorted_chunk_idx_vec@.subrange(0, k as int)),
        decreases graph.sorted_chunk_idx_vec.len() - k,
    {
        let c = graph.sorted_chunk_idx_vec[k];
        let ghost sk = g0.sorted_chunk_idx_vec@.subrange(0, k as int);
        let ghost sk1 = g0.sorted_chunk_idx_vec@.subrange(0, k + 1);
        let ghost order0 = chunk_order(r@);
        proof {
            assert(sk1.drop_last() =~= sk);
            assert(sk1.last() == c);
            lemma_first_seen_contains(sk, c);
        }
        if !named[c] {
            let name = copy_str(&pre_names[c]);
            graph.chunk_table[c].name = Some(copy_str(&name));
            named.set(c, true);
            let ghost rb = r@;
            r.push((c, name));
            proof {
                assert(!sk.contains(c));
                assert(chunk_order(r@) =~= order0.push(c));
                assert forall|i1: int, i2: int| 0 <= i1 < i2 < r.len() implies (#[trigger] r@[i1]).0 != (#[trigger] r@[i2]).0 by {
                    if i2 == r.len() - 1 {
                        assert(rb[i1] == r@[i1]);
                    } else {
                        assert(rb[i1] == r@[i1] && rb[i2] == r@[i2]);
                    }
                }
                assert forall|q: int| 0 <= q < n && #[trigger] named@[q] implies exists|i: int| 0 <= i < r.len() && r@[i].0 == q as usize by {
                    if q == c as int {
                        assert(r@[r.len() - 1].0 == c);
                    } else {
                        let i = choose|i: int| 0 <= i < rb.len() && rb[i].0 == q as usize;
                        assert(r@[i] == rb[i]);
                    }
                }
            }
        }
        proof {
            assert(chunk_order(r@) == first_seen(sk1));
            let s = g0.sorted_chunk_idx_vec@;
            assert forall|q: int| 0 <= q < n && #[trigger] named@[q] implies s.subrange(0, k + 1).contains(q as usize) by {
                if q == c as int {
                    assert(s.subrange(0, k + 1)[k as int] == c);
                } else {
                    let j = choose|j: int| 0 <= j < s.subrange(0, k as int).len() && s.subrange(0, k as int)[j] == q as usize;
                    assert(s.subrange(0, k + 1)[j] == q as usize);
                }
            }
            assert forall|i: int| 0 <= i < r.len() implies {
                let (cc, name) = #[trigger] r@[i];
                &&& cc < n
                &&& named@[cc as int]
                &&& g0.sorted_chunk_idx_vec@.contains(cc)
                &&& name@ == pre_names@[cc as int]@
                &&& graph.chunk_table@[cc as int].name matches Some(nm) && nm@ == name@
            } by {
                if i == r.len() - 1 {
                    assert(s[k as int] == c);
                }
            }
        }
        k += 1;
    }
    proof {
        let s = g0.sorted_chunk_idx_vec@;
        assert(s.subrange(0, k as int) =~= s);
        assert forall|c: usize| #[trigger] s.contains(c) implies exists|i: int| 0 <= i < r.len() && r@[i].0 == c by {
            let j = choose|j: int| 0 <= j < s.len() && s[j] == c;
            assert(named@[s[j] as int]);
        }
        assert forall|q: int| 0 <= q < n && !s.contains(q as usize) implies (#[trigger] graph.chunk_table@[q]).name == g0.chunk_table@[q].name by {
            if named@[q] {
                assert(s.subrange(0, k as int) =~= s);
            }
        }
    }
    r
}

} // verus!
