//! The local append-only ledger: blocks linked by SHA-256 hashes, holding
//! opaque text or a direct chat payload.
use vstd::prelude::*;
use sha2::Digest;
use crate::groups::{hex_encode, hex_text};
use crate::json::{
    chars_of, decimal, is_digit, lemma_scan_decimal, lemma_scan_quoted, quoted, read_number,
    read_quoted, scan_number, scan_quoted, string_of, write_decimal, write_quoted,
};

verus! {

/// A block of the ledger.
#[derive(Debug, Clone)]
pub struct Block {
    pub index: u64,
    pub timestamp_ms: u128,
    pub previous_hash: String,
    pub nonce: u64,
    pub data: String,
    pub hash: String,
}

/// A direct chat message stored in a block.
#[derive(Debug, Clone)]
pub struct DirectTextPayload {
    pub from: String,
    pub to: String,
    pub text: String,
    pub ts: u128,
}

pub struct DirectView {
    pub from: Seq<char>,
    pub to: Seq<char>,
    pub text: Seq<char>,
    pub ts: nat,
}

impl View for DirectTextPayload {
    type V = DirectView;

    open spec fn view(&self) -> DirectView {
        DirectView { from: self.from@, to: self.to@, text: self.text@, ts: self.ts as nat }
    }
}

/// SHA-256 digest of the UTF-8 bytes of a text.
pub uninterp spec fn sha256_of(s: Seq<char>) -> Seq<u8>;

/// Relies on `sha2::Sha256`: the digest of the text's bytes.
#[verifier::external_body]
fn sha256_digest(input: &str) -> (r: Vec<u8>)
    ensures
        r@ == sha256_of(input@),
{
    sha2::Sha256::digest(input.as_bytes()).to_vec()
}

/// Relies on `std::time::SystemTime`: milliseconds since the Unix epoch, or 0
/// if the clock is before it.
#[verifier::external_body]
pub fn current_timestamp_ms() -> (r: u128) {
    std::time::SystemTime::now().duration_since(std::time::UNIX_EPOCH).map(|d| d.as_millis()).unwrap_or_default()
}

/// What a block's hash covers: index, timestamp, previous hash, nonce and data, in that order.
pub open spec fn hash_input(
    index: u64,
    timestamp_ms: u128,
    previous_hash: Seq<char>,
    nonce: u64,
    data: Seq<char>,
) -> Seq<char> {
    decimal(index as nat) + decimal(timestamp_ms as nat) + previous_hash + decimal(nonce as nat)
        + data
}

pub open spec fn block_hash(b: Block) -> Seq<char> {
    hex_text(sha256_of(hash_input(b.index, b.timestamp_ms, b.previous_hash@, b.nonce, b.data@)))
}

/// The data of a direct block:
/// `{"direct":{"from":…,"text":…,"to":…,"ts":…}}`.
pub open spec fn direct_text(from: Seq<char>, to: Seq<char>, text: Seq<char>, ts: nat) -> Seq<char> {
    "{\"direct\":{\"from\":"@ + (quoted(from) + (",\"text\":"@ + (quoted(text) + (",\"to\":"@ + (
    quoted(to) + (",\"ts\":"@ + (decimal(ts) + "}}"@)))))))
}

pub open spec fn scan_lit(s: Seq<char>, i: int, lit: Seq<char>) -> Option<int> {
    if 0 <= i && i + lit.len() <= s.len() && s.subrange(i, i + lit.len()) == lit {
        Some(i + lit.len())
    } else {
        None
    }
}

/// The direct payload that a block's data holds, if it is one.
#[verifier::opaque]
pub open spec fn parse_direct(s: Seq<char>) -> Option<DirectView> {
    match scan_lit(s, 0, "{\"direct\":{\"from\":"@) {
        Some(a) => match scan_quoted(s, a) {
            Some((from, b)) => match scan_lit(s, b, ",\"text\":"@) {
                Some(c) => match scan_quoted(s, c) {
                    Some((text, d)) => match scan_lit(s, d, ",\"to\":"@) {
                        Some(e) => match scan_quoted(s, e) {
                            Some((to, f)) => match scan_lit(s, f, ",\"ts\":"@) {
                                Some(g) => match scan_number(s, g) {
                                    Some((ts, h)) => if scan_lit(s, h, "}}"@) == Some(
                                        s.len() as int,
                                    ) {
                                        Some(DirectView { from, to, text, ts })
                                    } else {
                                        None
                                    },
                                    None => None,
                                },
                                None => None,
                            },
                            None => None,
                        },
                        None => None,
                    },
                    None => None,
                },
                None => None,
            },
            None => None,
        },
        None => None,
    }
}

/// The direct payloads of a chain, in block order.
pub open spec fn directs(chain: Seq<Block>) -> Seq<DirectView>
    decreases chain.len(),
{
    if chain.len() == 0 {
        Seq::empty()
    } else {
        let rest = directs(chain.drop_last());
        match parse_direct(chain.last().data@) {
            Some(d) => rest.push(d),
            None => rest,
        }
    }
}

/// A chain is valid when it is not empty, each block names its predecessor's
/// hash, and each hash recomputes.
pub open spec fn chain_valid(chain: Seq<Block>) -> bool {
    &&& chain.len() > 0
    &&& forall|i: int|
        1 <= i < chain.len() ==> (#[trigger] chain[i]).previous_hash@ == chain[i - 1].hash@
            && chain[i].hash@ == block_hash(chain[i])
}

fn push_chars(out: &mut Vec<char>, s: &Vec<char>)
    ensures
        final(out)@ == old(out)@ + s@,
{
    let ghost o = old(out)@;
    let mut i: usize = 0;
    assert(o + s@.take(0) =~= o);
    while i < s.len()
        invariant
            i <= s@.len(),
            out@ == o + s@.take(i as int),
        decreases s@.len() - i,
    {
        out.push(s[i]);
        assert(out@ =~= o + s@.take(i + 1));
        i = i + 1;
    }
    assert(s@.take(i as int) =~= s@);
}

fn read_lit(s: &Vec<char>, i: usize, lit: &str) -> (r: Option<usize>)
    ensures
        match r {
            Some(j) => scan_lit(s@, i as int, lit@) == Some(j as int) && j <= s@.len(),
            None => scan_lit(s@, i as int, lit@) is None,
        },
{
    let l = chars_of(lit);
    if i > s.len() || s.len() - i < l.len() {
        return None;
    }
    let n = s.len();
    let mut k: usize = 0;
    while k < l.len()
        invariant
            n == s@.len(),
            l@ == lit@,
            i <= s@.len(),
            i + l@.len() <= s@.len(),
            k <= l@.len(),
            forall|m: int| 0 <= m < k ==> s@[i + m] == l@[m],
        decreases l@.len() - k,
    {
        assert(i + k < s@.len());
        if s[i + k] != l[k] {
            assert(s@.subrange(i as int, i + l@.len())[k as int] != l@[k as int]);
            return None;
        }
        k = k + 1;
    }
    assert(s@.subrange(i as int, i + l@.len()) =~= l@);
    Some(i + l.len())
}

impl Block {
    /// A block over opaque `data`, its hash computed.
    pub fn new(index: u64, timestamp_ms: u128, previous_hash: String, nonce: u64, data: String) -> (r:
        Self)
        ensures
            r.index == index,
            r.timestamp_ms == timestamp_ms,
            r.previous_hash@ == previous_hash@,
            r.nonce == nonce,
            r.data@ == data@,
            r.hash@ == block_hash(r),
    {
        let mut b = Block { index, timestamp_ms, previous_hash, nonce, data, hash: String::new() };
        b.hash = b.calculate_hash();
        b
    }

    /// A text block: nonce 0, the text as data.
    pub fn new_text(index: u64, timestamp_ms: u128, previous_hash: String, text: String) -> (r: Self)
        ensures
            r.index == index,
            r.timestamp_ms == timestamp_ms,
            r.previous_hash@ == previous_hash@,
            r.nonce == 0,
            r.data@ == text@,
            r.hash@ == block_hash(r),
    {
        Self::new(index, timestamp_ms, previous_hash, 0, text)
    }

    /// A block holding one direct chat message, stamped with the block's timestamp.
    pub fn new_direct(
        index: u64,
        timestamp_ms: u128,
        previous_hash: String,
        from: &str,
        to: &str,
        text: &str,
    ) -> (r: Self)
        ensures
            r.index == index,
            r.timestamp_ms == timestamp_ms,
            r.previous_hash@ == previous_hash@,
            r.nonce == 0,
            r.data@ == direct_text(from@, to@, text@, timestamp_ms as nat),
            parse_direct(r.data@) == Some(
                DirectView { from: from@, to: to@, text: text@, ts: timestamp_ms as nat },
            ),
            r.hash@ == block_hash(r),
    {
        let mut out = chars_of("{\"direct\":{\"from\":");
        write_quoted(&mut out, &chars_of(from));
        push_chars(&mut out, &chars_of(",\"text\":"));
        write_quoted(&mut out, &chars_of(text));
        push_chars(&mut out, &chars_of(",\"to\":"));
        write_quoted(&mut out, &chars_of(to));
        push_chars(&mut out, &chars_of(",\"ts\":"));
        write_decimal(&mut out, timestamp_ms);
        push_chars(&mut out, &chars_of("}}"));
        assert(out@ =~= direct_text(from@, to@, text@, timestamp_ms as nat));
        proof {
            lemma_direct_round_trip(from@, to@, text@, timestamp_ms as nat);
        }
        Self::new(index, timestamp_ms, previous_hash, 0, string_of(&out))
    }

    /// Recomputes the hash from the block's fields.
    pub fn calculate_hash(&self) -> (r: String)
        ensures
            r@ == block_hash(*self),
    {
        let mut out: Vec<char> = Vec::new();
        write_decimal(&mut out, self.index as u128);
        write_decimal(&mut out, self.timestamp_ms);
        push_chars(&mut out, &chars_of(self.previous_hash.as_str()));
        write_decimal(&mut out, self.nonce as u128);
        push_chars(&mut out, &chars_of(self.data.as_str()));
        assert(out@ =~= hash_input(
            self.index,
            self.timestamp_ms,
            self.previous_hash@,
            self.nonce,
            self.data@,
        ));
        let input = string_of(&out);
        let digest = sha256_digest(input.as_str());
        hex_encode(&digest)
    }

    /// The opaque payload.
    pub fn raw_data(&self) -> (r: &str)
        ensures
            r@ == self.data@,
    {
        self.data.as_str()
    }

    /// The direct chat message this block holds, if it holds one.
    #[verifier::spinoff_prover]
    pub fn as_direct_text(&self) -> (r: Option<DirectTextPayload>)
        ensures
            match r {
                Some(p) => parse_direct(self.data@) == Some(p@),
                None => parse_direct(self.data@) is None,
            },
    {
        reveal(parse_direct);
        let s = chars_of(self.data.as_str());
        let a = match read_lit(&s, 0, "{\"direct\":{\"from\":") {
            Some(a) => a,
            None => {
                return None;
            },
        };
        let (from, b) = match read_quoted(&s, a) {
            Some(x) => x,
            None => {
                return None;
            },
        };
        let c = match read_lit(&s, b, ",\"text\":") {
            Some(c) => c,
            None => {
                return None;
            },
        };
        let (text, d) = match read_quoted(&s, c) {
            Some(x) => x,
            None => {
                return None;
            },
        };
        let e = match read_lit(&s, d, ",\"to\":") {
            Some(e) => e,
            None => {
                return None;
            },
        };
        let (to, f) = match read_quoted(&s, e) {
            Some(x) => x,
            None => {
                return None;
            },
        };
        let g = match read_lit(&s, f, ",\"ts\":") {
            Some(g) => g,
            None => {
                return None;
            },
        };
        let (ts, h) = match read_number(&s, g) {
            Some(x) => x,
            None => {
                return None;
            },
        };
        match read_lit(&s, h, "}}") {
            Some(end) => if end == s.len() {
                Some(
                    DirectTextPayload {
                        from: string_of(&from),
                        to: string_of(&to),
                        text: string_of(&text),
                        ts,
                    },
                )
            } else {
                None
            },
            None => None,
        }
    }
}

/// The ledger: a chain of blocks that always starts with a genesis block.
#[derive(Debug, Clone)]
pub struct Blockchain {
    pub chain: Vec<Block>,
}

impl Blockchain {
    /// A chain holding only the genesis block.
    pub fn new() -> (r: Self)
        ensures
            r.chain@.len() == 1,
            r.chain@[0].index == 0,
            r.chain@[0].previous_hash@ == "0"@,
            r.chain@[0].data@ == "Genesis Block"@,
            r.chain@[0].nonce == 0,
            r.chain@[0].hash@ == block_hash(r.chain@[0]),
            chain_valid(r.chain@),
    {
        let mut bc = Blockchain { chain: Vec::new() };
        bc.push_genesis();
        bc
    }

    fn push_genesis(&mut self)
        ensures
            final(self).chain@ == old(self).chain@.push(final(self).chain@.last()),
            final(self).chain@.last().index == 0,
            final(self).chain@.last().previous_hash@ == "0"@,
            final(self).chain@.last().data@ == "Genesis Block"@,
            final(self).chain@.last().nonce == 0,
            final(self).chain@.last().hash@ == block_hash(final(self).chain@.last()),
    {
        let genesis = Block::new_text(
            0,
            current_timestamp_ms(),
            text_of_str("0"),
            text_of_str("Genesis Block"),
        );
        self.chain.push(genesis);
    }

    /// The newest block.
    pub fn last_block(&self) -> (r: &Block)
        requires
            self.chain@.len() > 0,
        ensures
            *r == self.chain@.last(),
    {
        &self.chain[self.chain.len() - 1]
    }

    fn append(&mut self, b: Block)
        requires
            old(self).chain@.len() > 0,
            b.previous_hash@ == old(self).chain@.last().hash@,
            b.hash@ == block_hash(b),
        ensures
            final(self).chain@ == old(self).chain@.push(b),
            chain_valid(old(self).chain@) ==> chain_valid(final(self).chain@),
    {
        self.chain.push(b);
        proof {
            let c = self.chain@;
            if chain_valid(old(self).chain@) {
                assert forall|i: int| 1 <= i < c.len() implies (#[trigger] c[i]).previous_hash@
                    == c[i - 1].hash@ && c[i].hash@ == block_hash(c[i]) by {
                    if i < c.len() - 1 {
                        assert(c[i] == old(self).chain@[i]);
                        assert(c[i - 1] == old(self).chain@[i - 1]);
                    }
                }
            }
        }
    }

    /// Appends a text block linked to the newest block.
    pub fn add_text_block(&mut self, text: &str) -> (r: &Block)
        requires
            old(self).chain@.len() > 0,
            old(self).chain@.len() < u64::MAX,
        ensures
            final(self).chain@.len() == old(self).chain@.len() + 1,
            final(self).chain@.drop_last() == old(self).chain@,
            final(self).chain@.last().index == old(self).chain@.len(),
            final(self).chain@.last().previous_hash@ == old(self).chain@.last().hash@,
            final(self).chain@.last().data@ == text@,
            final(self).chain@.last().hash@ == block_hash(final(self).chain@.last()),
            chain_valid(old(self).chain@) ==> chain_valid(final(self).chain@),
            *r == final(self).chain@.last(),
    {
        let prev = self.last_block().hash.clone();
        let b = Block::new_text(
            self.chain.len() as u64,
            current_timestamp_ms(),
            prev,
            text_of_str(text),
        );
        self.append(b);
        assert(self.chain@.drop_last() =~= old(self).chain@);
        self.last_block()
    }

    /// Appends a direct chat block linked to the newest block.
    pub fn add_direct_text_block(&mut self, from: &str, to: &str, text: &str) -> (r: &Block)
        requires
            old(self).chain@.len() > 0,
            old(self).chain@.len() < u64::MAX,
        ensures
            final(self).chain@.len() == old(self).chain@.len() + 1,
            final(self).chain@.drop_last() == old(self).chain@,
            final(self).chain@.last().index == old(self).chain@.len(),
            final(self).chain@.last().previous_hash@ == old(self).chain@.last().hash@,
            final(self).chain@.last().data@ == direct_text(
                from@,
                to@,
                text@,
                final(self).chain@.last().timestamp_ms as nat,
            ),
            final(self).chain@.last().hash@ == block_hash(final(self).chain@.last()),
            chain_valid(old(self).chain@) ==> chain_valid(final(self).chain@),
            *r == final(self).chain@.last(),
            parse_direct(final(self).chain@.last().data@) == Some(
                DirectView {
                    from: from@,
                    to: to@,
                    text: text@,
                    ts: final(self).chain@.last().timestamp_ms as nat,
                },
            ),
            directs(final(self).chain@) == directs(old(self).chain@).push(
                DirectView {
                    from: from@,
                    to: to@,
                    text: text@,
                    ts: final(self).chain@.last().timestamp_ms as nat,
                },
            ),
    {
        let prev = self.last_block().hash.clone();
        let b = Block::new_direct(self.chain.len() as u64, current_timestamp_ms(), prev, from, to, text);
        self.append(b);
        assert(self.chain@.drop_last() =~= old(self).chain@);
        self.last_block()
    }

    /// Records a direct message received from a peer; the same as
    /// `add_direct_text_block`.
    pub fn append_foreign_direct(&mut self, from: &str, to: &str, text: &str) -> (r: &Block)
        requires
            old(self).chain@.len() > 0,
            old(self).chain@.len() < u64::MAX,
        ensures
            final(self).chain@.len() == old(self).chain@.len() + 1,
            final(self).chain@.drop_last() == old(self).chain@,
            final(self).chain@.last().previous_hash@ == old(self).chain@.last().hash@,
            final(self).chain@.last().data@ == direct_text(
                from@,
                to@,
                text@,
                final(self).chain@.last().timestamp_ms as nat,
            ),
            final(self).chain@.last().hash@ == block_hash(final(self).chain@.last()),
            chain_valid(old(self).chain@) ==> chain_valid(final(self).chain@),
            *r == final(self).chain@.last(),
            directs(final(self).chain@) == directs(old(self).chain@).push(
                DirectView {
                    from: from@,
                    to: to@,
                    text: text@,
                    ts: final(self).chain@.last().timestamp_ms as nat,
                },
            ),
    {
        self.add_direct_text_block(from, to, text)
    }

    /// Whether the hash chain is unbroken and every hash recomputes.
    pub fn is_valid(&self) -> (r: bool)
        ensures
            r == chain_valid(self.chain@),
    {
        if self.chain.len() == 0 {
            return false;
        }
        let mut i: usize = 1;
        while i < self.chain.len()
            invariant
                1 <= i <= self.chain@.len(),
                forall|m: int|
                    1 <= m < i ==> (#[trigger] self.chain@[m]).previous_hash@ == self.chain@[m
                        - 1].hash@ && self.chain@[m].hash@ == block_hash(self.chain@[m]),
            decreases self.chain@.len() - i,
        {
            let curr = &self.chain[i];
            let prev = &self.chain[i - 1];
            if curr.previous_hash != prev.hash {
                return false;
            }
            let h = curr.calculate_hash();
            if curr.hash != h {
                return false;
            }
            i = i + 1;
        }
        true
    }

    /// The direct chat messages of the chain, in block order.
    pub fn all_direct_text(&self) -> (r: Vec<DirectTextPayload>)
        ensures
            r@.map_values(|p: DirectTextPayload| p@) == directs(self.chain@),
    {
        let mut r: Vec<DirectTextPayload> = Vec::new();
        let mut i: usize = 0;
        assert(self.chain@.take(0) =~= Seq::<Block>::empty());
        assert(r@.map_values(|p: DirectTextPayload| p@) =~= directs(self.chain@.take(0)));
        while i < self.chain.len()
            invariant
                i <= self.chain@.len(),
                r@.map_values(|p: DirectTextPayload| p@) == directs(self.chain@.take(i as int)),
            decreases self.chain@.len() - i,
        {
            assert(self.chain@.take(i + 1).drop_last() =~= self.chain@.take(i as int));
            assert(self.chain@.take(i + 1).last() == self.chain@[i as int]);
            let ghost before = r@;
            match self.chain[i].as_direct_text() {
                Some(p) => {
                    r.push(p);
                    assert(r@.map_values(|p: DirectTextPayload| p@) =~= before.map_values(
                        |p: DirectTextPayload| p@,
                    ).push(p@));
                },
                None => {},
            }
            i = i + 1;
        }
        assert(self.chain@.take(i as int) =~= self.chain@);
        r
    }
}

fn text_of_str(s: &str) -> (r: String)
    ensures
        r@ == s@,
{
    string_of(&chars_of(s))
}

// ---------------------------------------------------------------------------
// Laws
// ---------------------------------------------------------------------------

proof fn lemma_step_lit(s: Seq<char>, i: int, lit: Seq<char>, rest: Seq<char>)
    requires
        0 <= i <= s.len(),
        s.subrange(i, s.len() as int) == lit + rest,
    ensures
        scan_lit(s, i, lit) == Some(i + lit.len()),
        s.subrange(i + lit.len(), s.len() as int) == rest,
{
    assert(s.subrange(i, i + lit.len()) =~= (lit + rest).subrange(0, lit.len() as int));
    assert((lit + rest).subrange(0, lit.len() as int) =~= lit);
    assert(s.subrange(i + lit.len(), s.len() as int) =~= (lit + rest).subrange(
        lit.len() as int,
        (lit + rest).len() as int,
    ));
    assert((lit + rest).subrange(lit.len() as int, (lit + rest).len() as int) =~= rest);
}

proof fn lemma_step_quoted(s: Seq<char>, i: int, t: Seq<char>, rest: Seq<char>)
    requires
        0 <= i <= s.len(),
        s.subrange(i, s.len() as int) == quoted(t) + rest,
    ensures
        scan_quoted(s, i) == Some((t, i + quoted(t).len())),
        s.subrange(i + quoted(t).len(), s.len() as int) == rest,
{
    let p = s.take(i);
    assert(s =~= p + s.subrange(i, s.len() as int));
    assert(p + (quoted(t) + rest) =~= p + quoted(t) + rest);
    lemma_scan_quoted(p, t, rest);
    assert(s.subrange(i + quoted(t).len(), s.len() as int) =~= rest);
}

proof fn lemma_step_number(s: Seq<char>, i: int, n: nat, rest: Seq<char>)
    requires
        0 <= i <= s.len(),
        n <= u128::MAX,
        rest.len() == 0 || !is_digit(rest[0]),
        s.subrange(i, s.len() as int) == decimal(n) + rest,
    ensures
        scan_number(s, i) == Some((n, i + decimal(n).len())),
        s.subrange(i + decimal(n).len(), s.len() as int) == rest,
{
    let p = s.take(i);
    assert(s =~= p + s.subrange(i, s.len() as int));
    assert(p + (decimal(n) + rest) =~= p + decimal(n) + rest);
    lemma_scan_decimal(p, n, rest);
    assert(s.subrange(i + decimal(n).len(), s.len() as int) =~= rest);
}

/// The data of a direct block reads back as the same message.
#[verifier::spinoff_prover]
pub proof fn lemma_direct_round_trip(from: Seq<char>, to: Seq<char>, text: Seq<char>, ts: nat)
    requires
        ts <= u128::MAX,
    ensures
        parse_direct(direct_text(from, to, text, ts)) == Some(DirectView { from, to, text, ts }),
{
    let l0 = "{\"direct\":{\"from\":"@;
    let l1 = ",\"text\":"@;
    let l2 = ",\"to\":"@;
    let l3 = ",\"ts\":"@;
    let l4 = "}}"@;
    reveal(parse_direct);
    reveal_strlit("}}");
    let s = direct_text(from, to, text, ts);
    let r8 = l4;
    let r7 = decimal(ts) + r8;
    let r6 = l3 + r7;
    let r5 = quoted(to) + r6;
    let r4 = l2 + r5;
    let r3 = quoted(text) + r4;
    let r2 = l1 + r3;
    let r1 = quoted(from) + r2;
    assert(s.subrange(0, s.len() as int) =~= s);
    lemma_step_lit(s, 0, l0, r1);
    let a = l0.len() as int;
    lemma_step_quoted(s, a, from, r2);
    let b = a + quoted(from).len();
    lemma_step_lit(s, b, l1, r3);
    let c = b + l1.len();
    lemma_step_quoted(s, c, text, r4);
    let d = c + quoted(text).len();
    lemma_step_lit(s, d, l2, r5);
    let e = d + l2.len();
    lemma_step_quoted(s, e, to, r6);
    let f = e + quoted(to).len();
    lemma_step_lit(s, f, l3, r7);
    let g = f + l3.len();
    assert(!is_digit(r8[0]));
    lemma_step_number(s, g, ts, r8);
    let h = g + decimal(ts).len();
    assert(r8 =~= l4 + Seq::<char>::empty());
    lemma_step_lit(s, h, l4, Seq::<char>::empty());
}

// ---------------------------------------------------------------------------
// Summaries
// ---------------------------------------------------------------------------

/// A block as the history view shows it.
#[derive(Debug, Clone)]
pub struct BlockSummary {
    pub index: u64,
    pub timestamp_ms: u128,
    pub hash: String,
    pub previous_hash: String,
    pub message_count: usize,
    pub preview: String,
}

/// The whole chain as the history view shows it.
#[derive(Debug, Clone)]
pub struct ChainSummary {
    pub blocks: Vec<BlockSummary>,
    pub total_messages: usize,
}

/// UTF-8 bytes of raw data shown in a chain summary.
pub const PREVIEW_LEN: usize = 32;

/// Messages a block holds: one for a direct block, none otherwise.
pub open spec fn message_count_of(data: Seq<char>) -> nat {
    if parse_direct(data) is Some {
        1
    } else {
        0
    }
}

/// Bytes of `c` in UTF-8.
pub open spec fn utf8_width(c: char) -> nat {
    let u = c as u32;
    if u < 0x80 {
        1
    } else if u < 0x800 {
        2
    } else if u < 0x10000 {
        3
    } else {
        4
    }
}

/// Bytes of a text in UTF-8.
pub open spec fn utf8_size(s: Seq<char>) -> nat
    decreases s.len(),
{
    if s.len() == 0 {
        0
    } else {
        utf8_size(s.drop_last()) + utf8_width(s.last())
    }
}

/// The number of leading characters of `s` that fit in `n` UTF-8 bytes,
/// counting on from the first `i`.
pub open spec fn fit_from(s: Seq<char>, n: nat, i: int) -> int
    decreases s.len() - i,
{
    if 0 <= i < s.len() && utf8_size(s.take(i + 1)) <= n {
        fit_from(s, n, i + 1)
    } else {
        i
    }
}

/// The preview of a block: a direct message's text; else, when the data is
/// longer than `n` UTF-8 bytes, its longest prefix of at most `n` bytes
/// (exactly `n` where that is a character boundary) followed by `...`;
/// else the data itself.
pub open spec fn preview_of(data: Seq<char>, n: nat) -> Seq<char> {
    match parse_direct(data) {
        Some(d) => d.text,
        None => {
            let k = fit_from(data, n, 0);
            if k < data.len() {
                data.take(k) + "..."@
            } else {
                data
            }
        },
    }
}

fn utf8_width_exec(c: char) -> (r: usize)
    ensures
        r == utf8_width(c),
{
    let u = c as u32;
    if u < 0x80 {
        1
    } else if u < 0x800 {
        2
    } else if u < 0x10000 {
        3
    } else {
        4
    }
}

pub open spec fn summarizes(r: BlockSummary, b: Block, n: nat) -> bool {
    &&& r.index == b.index
    &&& r.timestamp_ms == b.timestamp_ms
    &&& r.hash@ == b.hash@
    &&& r.previous_hash@ == b.previous_hash@
    &&& r.message_count == message_count_of(b.data@)
    &&& r.preview@ == preview_of(b.data@, n)
}

impl BlockSummary {
    /// The summary of one block, raw data cut to `preview_len` UTF-8 bytes.
    pub fn from_block(b: &Block, preview_len: usize) -> (r: Self)
        ensures
            summarizes(r, *b, preview_len as nat),
    {
        match b.as_direct_text() {
            Some(dt) => BlockSummary {
                index: b.index,
                timestamp_ms: b.timestamp_ms,
                hash: b.hash.clone(),
                previous_hash: b.previous_hash.clone(),
                message_count: 1,
                preview: dt.text,
            },
            None => {
                let raw = chars_of(b.raw_data());
                let mut out: Vec<char> = Vec::new();
                let mut used: usize = 0;
                let mut i: usize = 0;
                assert(raw@.take(0) =~= Seq::<char>::empty());
                while i < raw.len() && utf8_width_exec(raw[i]) <= preview_len - used
                    invariant
                        i <= raw@.len(),
                        used <= preview_len,
                        used == utf8_size(raw@.take(i as int)),
                        out@ == raw@.take(i as int),
                        fit_from(raw@, preview_len as nat, 0) == fit_from(
                            raw@,
                            preview_len as nat,
                            i as int,
                        ),
                    decreases raw@.len() - i,
                {
                    assert(raw@.take(i + 1).drop_last() =~= raw@.take(i as int));
                    assert(raw@.take(i + 1).last() == raw@[i as int]);
                    used = used + utf8_width_exec(raw[i]);
                    out.push(raw[i]);
                    assert(raw@.take(i + 1) =~= raw@.take(i as int).push(raw@[i as int]));
                    i = i + 1;
                }
                proof {
                    if i < raw@.len() {
                        assert(raw@.take(i + 1).drop_last() =~= raw@.take(i as int));
                        assert(raw@.take(i + 1).last() == raw@[i as int]);
                    }
                    assert(fit_from(raw@, preview_len as nat, i as int) == i);
                }
                let preview = if i < raw.len() {
                    push_chars(&mut out, &chars_of("..."));
                    string_of(&out)
                } else {
                    assert(raw@.take(i as int) =~= raw@);
                    string_of(&raw)
                };
                BlockSummary {
                    index: b.index,
                    timestamp_ms: b.timestamp_ms,
                    hash: b.hash.clone(),
                    previous_hash: b.previous_hash.clone(),
                    message_count: 0,
                    preview,
                }
            },
        }
    }
}

impl ChainSummary {
    /// One summary per block, in order, and the number of messages in all.
    pub fn from_chain(chain: &Blockchain) -> (r: Self)
        ensures
            r.blocks@.len() == chain.chain@.len(),
            forall|i: int|
                0 <= i < r.blocks@.len() ==> summarizes(
                    #[trigger] r.blocks@[i],
                    chain.chain@[i],
                    PREVIEW_LEN as nat,
                ),
            r.total_messages == directs(chain.chain@).len(),
    {
        let mut blocks: Vec<BlockSummary> = Vec::new();
        let mut total: usize = 0;
        let mut i: usize = 0;
        assert(chain.chain@.take(0) =~= Seq::<Block>::empty());
        while i < chain.chain.len()
            invariant
                i <= chain.chain@.len(),
                blocks@.len() == i,
                forall|m: int|
                    0 <= m < i ==> summarizes(
                        #[trigger] blocks@[m],
                        chain.chain@[m],
                        PREVIEW_LEN as nat,
                    ),
                total == directs(chain.chain@.take(i as int)).len(),
                total <= i,
            decreases chain.chain@.len() - i,
        {
            assert(chain.chain@.take(i + 1).drop_last() =~= chain.chain@.take(i as int));
            assert(chain.chain@.take(i + 1).last() == chain.chain@[i as int]);
            let bs = BlockSummary::from_block(&chain.chain[i], PREVIEW_LEN);
            total = total + bs.message_count;
            blocks.push(bs);
            i = i + 1;
        }
        assert(chain.chain@.take(i as int) =~= chain.chain@);
        ChainSummary { blocks, total_messages: total }
    }
}

} // verus!
