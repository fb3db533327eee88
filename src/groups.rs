//! In-memory group registry: a group is named by a digest of its sorted
//! member list, so the same members always give the same group.
use vstd::prelude::*;
use sha3::Digest;
use crate::json::{chars_of, hex_digit, same_chars, string_of};

verus! {

/// A group and its members (public keys, sorted).
#[derive(Debug, Clone)]
pub struct GroupInfo {
    pub id: String,
    pub members: Vec<String>,
}

pub struct GroupView {
    pub id: Seq<char>,
    pub members: Seq<Seq<char>>,
}

impl View for GroupInfo {
    type V = GroupView;

    open spec fn view(&self) -> GroupView {
        GroupView { id: self.id@, members: texts(self.members@) }
    }
}

/// The groups known locally.
pub struct GroupManager {
    pub groups: Vec<GroupInfo>,
}

pub open spec fn texts(s: Seq<String>) -> Seq<Seq<char>> {
    s.map_values(|x: String| x@)
}

pub open spec fn group_views(s: Seq<GroupInfo>) -> Seq<GroupView> {
    s.map_values(|g: GroupInfo| g@)
}

/// SHA3-256 digest of the UTF-8 bytes of a text.
pub uninterp spec fn sha3_256_of(s: Seq<char>) -> Seq<u8>;

/// Relies on `sha3::Sha3_256`: the digest of the text's bytes.
#[verifier::external_body]
fn sha3_256_digest(input: &str) -> (r: Vec<u8>)
    ensures
        r@ == sha3_256_of(input@),
{
    sha3::Sha3_256::digest(input.as_bytes()).to_vec()
}

/// Lowercase hexadecimal, two digits per byte, high nibble first.
pub open spec fn hex_text(b: Seq<u8>) -> Seq<char>
    decreases b.len(),
{
    if b.len() == 0 {
        Seq::empty()
    } else {
        hex_text(b.drop_last()) + seq![
            hex_digit((b.last() / 16) as int),
            hex_digit((b.last() % 16) as int),
        ]
    }
}

/// Relies on `hex::encode`: lowercase digits, two per byte, high nibble first.
#[verifier::external_body]
pub(crate) fn hex_encode(b: &Vec<u8>) -> (r: String)
    ensures
        r@ == hex_text(b@),
{
    hex::encode(b)
}

/// Lexicographic order of texts by code point.
pub open spec fn text_le(a: Seq<char>, b: Seq<char>) -> bool
    decreases a.len(),
{
    if a.len() == 0 {
        true
    } else if b.len() == 0 {
        false
    } else if (a[0] as u32) != (b[0] as u32) {
        (a[0] as u32) < (b[0] as u32)
    } else {
        text_le(a.drop_first(), b.drop_first())
    }
}

pub open spec fn sorted_texts(s: Seq<Seq<char>>) -> bool {
    forall|i: int, j: int| 0 <= i < j < s.len() ==> text_le(s[i], s[j])
}

/// Relies on `slice::sort_unstable` with `String`'s `Ord`, which compares the
/// UTF-8 bytes lexicographically and so orders texts by code point.
#[verifier::external_body]
fn sort_texts(v: &mut Vec<String>)
    ensures
        texts(final(v)@).to_multiset() == texts(old(v)@).to_multiset(),
        sorted_texts(texts(final(v)@)),
{
    v.sort_unstable()
}

/// Members joined by `|`.
pub open spec fn joined(s: Seq<Seq<char>>) -> Seq<char>
    decreases s.len(),
{
    if s.len() == 0 {
        Seq::empty()
    } else if s.len() == 1 {
        s[0]
    } else {
        joined(s.drop_last()) + seq!['|'] + s.last()
    }
}

/// The id of the group with these sorted members:
/// hex(SHA3-256("gid|" + members joined by "|")).
pub open spec fn group_id(sorted: Seq<Seq<char>>) -> Seq<char> {
    hex_text(sha3_256_of("gid|"@ + joined(sorted)))
}

/// Position of the group with this id, or -1.
pub open spec fn group_pos_from(s: Seq<GroupView>, id: Seq<char>, k: int) -> int
    decreases s.len() - k,
{
    if k < 0 || k >= s.len() {
        -1
    } else if s[k].id == id {
        k
    } else {
        group_pos_from(s, id, k + 1)
    }
}

pub open spec fn group_pos(s: Seq<GroupView>, id: Seq<char>) -> int {
    group_pos_from(s, id, 0)
}

proof fn lemma_group_pos_skip(s: Seq<GroupView>, id: Seq<char>, i: int, k: int)
    requires
        0 <= i <= k <= s.len(),
        forall|m: int| i <= m < k ==> s[m].id != id,
    ensures
        group_pos_from(s, id, i) == group_pos_from(s, id, k),
    decreases k - i,
{
    if i < k {
        lemma_group_pos_skip(s, id, i + 1, k);
    }
}

fn copy_texts(v: &Vec<String>) -> (r: Vec<String>)
    ensures
        texts(r@) == texts(v@),
{
    let mut r: Vec<String> = Vec::new();
    let mut i: usize = 0;
    while i < v.len()
        invariant
            i <= v@.len(),
            texts(r@) == texts(v@).take(i as int),
        decreases v@.len() - i,
    {
        let ghost before = r@;
        r.push(v[i].clone());
        assert(texts(r@) =~= texts(before).push(v@[i as int]@));
        assert(texts(v@).take(i + 1) =~= texts(v@).take(i as int).push(v@[i as int]@));
        i = i + 1;
    }
    assert(texts(v@).take(i as int) =~= texts(v@));
    r
}

fn copy_group(g: &GroupInfo) -> (r: GroupInfo)
    ensures
        r@ == g@,
{
    GroupInfo { id: g.id.clone(), members: copy_texts(&g.members) }
}

/// `gid|` followed by the members joined by `|`.
fn group_key(sorted: &Vec<String>) -> (r: String)
    ensures
        r@ == "gid|"@ + joined(texts(sorted@)),
{
    let mut out = chars_of("gid|");
    let ghost start = out@;
    let mut i: usize = 0;
    assert(texts(sorted@).take(0) =~= Seq::<Seq<char>>::empty());
    assert(start + joined(Seq::<Seq<char>>::empty()) =~= start);
    while i < sorted.len()
        invariant
            start == "gid|"@,
            i <= sorted@.len(),
            out@ == start + joined(texts(sorted@).take(i as int)),
        decreases sorted@.len() - i,
    {
        let ghost before = out@;
        let ghost t = texts(sorted@);
        if i > 0 {
            out.push('|');
        }
        let m = chars_of(sorted[i].as_str());
        let mut k: usize = 0;
        let ghost mid = out@;
        while k < m.len()
            invariant
                k <= m@.len(),
                out@ == mid + m@.take(k as int),
            decreases m@.len() - k,
        {
            out.push(m[k]);
            assert(m@.take(k + 1) =~= m@.take(k as int).push(m@[k as int]));
            k = k + 1;
        }
        proof {
            assert(m@.take(k as int) =~= m@);
            assert(t.take(i + 1).drop_last() =~= t.take(i as int));
            assert(t.take(i + 1).last() == sorted@[i as int]@);
            if i == 0 {
                assert(t.take(1)[0] == sorted@[0]@);
                assert(out@ =~= start + joined(t.take(1)));
            } else {
                assert(out@ =~= start + joined(t.take(i + 1)));
            }
        }
        i = i + 1;
    }
    assert(texts(sorted@).take(i as int) =~= texts(sorted@));
    string_of(&out)
}

impl GroupManager {
    pub open spec fn group_seq(&self) -> Seq<GroupView> {
        group_views(self.groups@)
    }

    /// An empty registry.
    pub fn new() -> (r: Self)
        ensures
            r.groups@.len() == 0,
    {
        GroupManager { groups: Vec::new() }
    }

    fn find(&self, gid: &str) -> (r: Option<usize>)
        ensures
            match r {
                Some(k) => k < self.groups@.len() && group_pos(self.group_seq(), gid@) == k
                    && self.group_seq()[k as int].id == gid@,
                None => group_pos(self.group_seq(), gid@) == -1,
            },
    {
        let ghost s = self.group_seq();
        let target = chars_of(gid);
        let mut k: usize = 0;
        while k < self.groups.len()
            invariant
                s == self.group_seq(),
                target@ == gid@,
                k <= self.groups@.len(),
                forall|m: int| 0 <= m < k ==> (#[trigger] s[m]).id != gid@,
            decreases self.groups@.len() - k,
        {
            let cand = chars_of(self.groups[k].id.as_str());
            if same_chars(&cand, &target) {
                proof {
                    lemma_group_pos_skip(s, gid@, 0, k as int);
                }
                return Some(k);
            }
            k = k + 1;
        }
        proof {
            lemma_group_pos_skip(s, gid@, 0, s.len() as int);
        }
        None
    }

    /// The id of the group with these members, in any order; the group is
    /// recorded, with its members sorted, unless a group with that id exists.
    #[verifier::spinoff_prover]
    pub fn create_group(&mut self, members: Vec<String>) -> (r: String)
        ensures
            exists|sorted: Seq<Seq<char>>|
                {
                    &&& sorted_texts(sorted)
                    &&& sorted.to_multiset() == texts(members@).to_multiset()
                    &&& r@ == group_id(sorted)
                    &&& if group_pos(old(self).group_seq(), r@) >= 0 {
                        final(self).group_seq() == old(self).group_seq()
                    } else {
                        final(self).group_seq() == old(self).group_seq().push(
                            GroupView { id: r@, members: sorted },
                        )
                    }
                },
    {
        let mut sorted = members;
        sort_texts(&mut sorted);
        let key = group_key(&sorted);
        let digest = sha3_256_digest(key.as_str());
        let gid = hex_encode(&digest);
        let ghost sv = texts(sorted@);
        let ghost s = self.group_seq();
        match self.find(gid.as_str()) {
            Some(_) => {},
            None => {
                let g = GroupInfo { id: gid.clone(), members: sorted };
                self.groups.push(g);
                assert(self.group_seq() =~= s.push(GroupView { id: gid@, members: sv }));
            },
        }
        assert(gid@ == group_id(sv));
        gid
    }

    /// All groups, in the order they were created.
    pub fn list_groups(&self) -> (r: Vec<GroupInfo>)
        ensures
            group_views(r@) == self.group_seq(),
    {
        let mut r: Vec<GroupInfo> = Vec::new();
        let mut i: usize = 0;
        while i < self.groups.len()
            invariant
                i <= self.groups@.len(),
                group_views(r@) == self.group_seq().take(i as int),
            decreases self.groups@.len() - i,
        {
            let ghost before = r@;
            r.push(copy_group(&self.groups[i]));
            assert(group_views(r@) =~= group_views(before).push(self.groups@[i as int]@));
            assert(self.group_seq().take(i + 1) =~= self.group_seq().take(i as int).push(
                self.groups@[i as int]@,
            ));
            i = i + 1;
        }
        assert(self.group_seq().take(i as int) =~= self.group_seq());
        r
    }

    /// The group with this id.
    pub fn get_group(&self, gid: &str) -> (r: Option<GroupInfo>)
        ensures
            match r {
                Some(g) => group_pos(self.group_seq(), gid@) >= 0 && g@ == self.group_seq()[group_pos(
                    self.group_seq(),
                    gid@,
                )],
                None => group_pos(self.group_seq(), gid@) == -1,
            },
    {
        match self.find(gid) {
            Some(k) => Some(copy_group(&self.groups[k])),
            None => None,
        }
    }

    /// The members of the group with this id.
    pub fn get_members(&self, gid: &str) -> (r: Option<Vec<String>>)
        ensures
            match r {
                Some(m) => group_pos(self.group_seq(), gid@) >= 0 && texts(m@) == self.group_seq()[group_pos(
                    self.group_seq(),
                    gid@,
                )].members,
                None => group_pos(self.group_seq(), gid@) == -1,
            },
    {
        match self.get_group(gid) {
            Some(g) => Some(g.members),
            None => None,
        }
    }

    /// Whether `member` belongs to the group with this id.
    pub fn is_member(&self, gid: &str, member: &str) -> (r: bool)
        ensures
            r == (group_pos(self.group_seq(), gid@) >= 0 && self.group_seq()[group_pos(
                self.group_seq(),
                gid@,
            )].members.contains(member@)),
    {
        match self.find(gid) {
            Some(k) => {
                let ms = &self.groups[k].members;
                assert(self.group_seq()[k as int] == self.groups@[k as int]@);
                let target = chars_of(member);
                let mut i: usize = 0;
                while i < ms.len()
                    invariant
                        target@ == member@,
                        k < self.groups@.len(),
                        ms == &self.groups@[k as int].members,
                        self.group_seq()[k as int] == self.groups@[k as int]@,
                        group_pos(self.group_seq(), gid@) == k,
                        i <= ms@.len(),
                        forall|m: int| 0 <= m < i ==> (#[trigger] ms@[m])@ != member@,
                    decreases ms@.len() - i,
                {
                    let cand = chars_of(ms[i].as_str());
                    if same_chars(&cand, &target) {
                        assert(texts(ms@)[i as int] == member@);
                        return true;
                    }
                    i = i + 1;
                }
                proof {
                    assert forall|m: int| 0 <= m < texts(ms@).len() implies texts(ms@)[m] != member@ by {
                        assert(texts(ms@)[m] == ms@[m]@);
                    }
                }
                false
            },
            None => false,
        }
    }
}

} // verus!
