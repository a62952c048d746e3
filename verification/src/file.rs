//! The container codec: record encoding, delimiter scanning, parse, serialize,
//! and the order-preserving mutations on one species' move list.

use vstd::prelude::*;

verus! {

/// The 4-byte sentinel that separates the header from the first species block
/// and each species block from the next.
pub const POKEMON_DELIMITER: [u8; 4] = [0xff, 0xff, 0xff, 0xff];

/// The delimiter as a mathematical byte sequence.
pub open spec fn spec_delimiter() -> Seq<u8> {
    seq![0xffu8, 0xffu8, 0xffu8, 0xffu8]
}

/// One move record: a skill identifier and the level at which it is learned.
/// Equality is structural (both fields equal).
#[derive(Debug, Clone, Copy, PartialEq, Eq, Structural)]
pub struct Move {
    pub id: u16,
    pub level: u16,
}

/// The record a 4-byte chunk decodes to: the first two bytes are the
/// little-endian id, the last two the little-endian level.
pub open spec fn spec_decode(b: Seq<u8>) -> Move
    recommends
        b.len() == 4,
{
    Move {
        id: (b[0] as int + 256 * (b[1] as int)) as u16,
        level: (b[2] as int + 256 * (b[3] as int)) as u16,
    }
}

/// The 4 bytes a record encodes to: little-endian halves, id first.
pub open spec fn spec_encode(m: Move) -> Seq<u8> {
    seq![
        (m.id % 256) as u8,
        (m.id / 256) as u8,
        (m.level % 256) as u8,
        (m.level / 256) as u8,
    ]
}

impl Move {
    #[must_use]
    pub fn new(id: u16, level: u16) -> (r: Move)
        ensures
            r == (Move { id, level }),
    {
        Move { id, level }
    }

    /// Decode exactly 4 bytes into a record.
    pub fn decode(bytes: &[u8; 4]) -> (r: Move)
        ensures
            r == spec_decode(bytes@),
    {
        let id: u16 = bytes[0] as u16 + 256 * (bytes[1] as u16);
        let level: u16 = bytes[2] as u16 + 256 * (bytes[3] as u16);
        Move { id, level }
    }

    /// Encode a record into exactly 4 bytes.
    pub fn encode(&self) -> (r: [u8; 4])
        ensures
            r@ == spec_encode(*self),
    {
        let r: [u8; 4] = [
            (self.id % 256) as u8,
            (self.id / 256) as u8,
            (self.level % 256) as u8,
            (self.level / 256) as u8,
        ];
        proof {
            assert(r@ =~= spec_encode(*self));
        }
        r
    }
}

/// Decoding inverts encoding: every representable record survives a
/// round trip through its 4-byte form.
pub proof fn lemma_decode_encode(m: Move)
    ensures
        spec_decode(spec_encode(m)) == m,
{
    vstd::arithmetic::div_mod::lemma_fundamental_div_mod(m.id as int, 256);
    vstd::arithmetic::div_mod::lemma_fundamental_div_mod(m.level as int, 256);
}

/// Encoding inverts decoding: every 4-byte chunk survives a round trip
/// through the record it decodes to.
pub proof fn lemma_encode_decode(b: Seq<u8>)
    requires
        b.len() == 4,
    ensures
        spec_encode(spec_decode(b)) == b,
{
    vstd::arithmetic::div_mod::lemma_fundamental_div_mod_converse(
        b[0] as int + 256 * (b[1] as int),
        256,
        b[1] as int,
        b[0] as int,
    );
    vstd::arithmetic::div_mod::lemma_fundamental_div_mod_converse(
        b[2] as int + 256 * (b[3] as int),
        256,
        b[3] as int,
        b[2] as int,
    );
    assert(spec_encode(spec_decode(b)) =~= b);
}

/// Index of the first position where a non-empty `needle` matches contiguously
/// inside `hay`, or `None` if it matches nowhere.
pub open spec fn find_sub(hay: Seq<u8>, needle: Seq<u8>) -> Option<int>
    recommends
        needle.len() >= 1,
    decreases hay.len(),
{
    if needle.len() == 0 || hay.len() < needle.len() {
        None
    } else if hay.take(needle.len() as int) == needle {
        Some(0)
    } else {
        match find_sub(hay.skip(1), needle) {
            None => None,
            Some(i) => Some(i + 1),
        }
    }
}

/// `needle` occurs in `hay` starting at position `j`.
pub open spec fn matches_at(hay: Seq<u8>, needle: Seq<u8>, j: int) -> bool {
    &&& 0 <= j
    &&& j + needle.len() <= hay.len()
    &&& hay.subrange(j, j + needle.len() as int) == needle
}

/// What `find_sub` returns: a found index is a match and is the first match;
/// `None` means no position matches.
pub proof fn lemma_find_sub(hay: Seq<u8>, needle: Seq<u8>)
    requires
        needle.len() >= 1,
    ensures
        match find_sub(hay, needle) {
            Some(p) => {
                &&& matches_at(hay, needle, p)
                &&& forall|j: int| 0 <= j < p ==> !matches_at(hay, needle, j)
            },
            None => forall|j: int| !matches_at(hay, needle, j),
        },
    decreases hay.len(),
{
    let n = needle.len() as int;
    if hay.len() < needle.len() {
    } else {
        lemma_find_sub(hay.skip(1), needle);
        assert forall|j: int| 1 <= j implies (#[trigger] matches_at(hay, needle, j))
            == matches_at(hay.skip(1), needle, j - 1) by {
            if j + n <= hay.len() {
                assert(hay.subrange(j, j + n) =~= hay.skip(1).subrange(j - 1, j - 1 + n));
            }
        }
        assert(hay.subrange(0, n) =~= hay.take(n));
        if hay.take(n) == needle {
        } else {
            assert(!matches_at(hay, needle, 0));
            match find_sub(hay.skip(1), needle) {
                Some(q) => {
                    assert(matches_at(hay, needle, q + 1));
                    assert forall|j: int| 0 <= j < q + 1 implies !(#[trigger] matches_at(
                        hay,
                        needle,
                        j,
                    )) by {
                        if j >= 1 {
                            assert(!matches_at(hay.skip(1), needle, j - 1));
                        }
                    }
                },
                None => {
                    assert forall|j: int| !(#[trigger] matches_at(hay, needle, j)) by {
                        if j >= 1 {
                            assert(!matches_at(hay.skip(1), needle, j - 1));
                        }
                    }
                },
            }
        }
    }
}

/// Splits `haystack` at the first occurrence of `needle`: the part before the
/// match, and the part from the match on (the needle included).  `None` when
/// the needle occurs nowhere, in particular whenever the haystack is shorter
/// than the needle.
pub fn split<'a>(haystack: &'a [u8], needle: &[u8]) -> (r: Option<(&'a [u8], &'a [u8])>)
    requires
        needle@.len() >= 1,
    ensures
        r is Some <==> find_sub(haystack@, needle@) is Some,
        r is Some ==> {
            let p = find_sub(haystack@, needle@)->Some_0;
            &&& r->Some_0.0@ == haystack@.take(p)
            &&& r->Some_0.1@ == haystack@.skip(p)
        },
{
    let hay_len = haystack.len();
    let n = needle.len();
    if hay_len < n {
        return None;
    }
    let mut i: usize = 0;
    while i <= hay_len - n
        invariant
            needle@.len() >= 1,
            n == needle@.len(),
            hay_len == haystack@.len(),
            n <= hay_len,
            0 <= i <= hay_len - n + 1,
            forall|j: int| 0 <= j < i ==> !matches_at(haystack@, needle@, j),
        decreases hay_len - i,
    {
        let mut k: usize = 0;
        while k < n && haystack[i + k] == needle[k]
            invariant
                n == needle@.len(),
                hay_len == haystack@.len(),
                i + n <= hay_len,
                0 <= k <= n,
                forall|j: int| 0 <= j < k ==> haystack@[i + j] == needle@[j],
            decreases n - k,
        {
            k = k + 1;
        }
        if k == n {
            proof {
                assert(haystack@.subrange(i as int, i as int + n as int) =~= needle@);
                assert(matches_at(haystack@, needle@, i as int));
                lemma_find_sub(haystack@, needle@);
                assert(find_sub(haystack@, needle@) == Some(i as int));
            }
            let before = vstd::slice::slice_subrange(haystack, 0, i);
            let at = vstd::slice::slice_subrange(haystack, i, hay_len);
            proof {
                assert(before@ =~= haystack@.take(i as int));
                assert(at@ =~= haystack@.skip(i as int));
            }
            return Some((before, at));
        }
        proof {
            assert(haystack@.subrange(i as int, i as int + n as int)[k as int] != needle@[
                k as int
            ]);
            assert(!matches_at(haystack@, needle@, i as int));
        }
        i = i + 1;
    }
    proof {
        lemma_find_sub(haystack@, needle@);
    }
    None
}

/// The species blocks of `rest`, the data that follows the first delimiter:
/// each block is what stands before the next delimiter.  Bytes after the last
/// delimiter belong to no block.
pub open spec fn blocks_of(rest: Seq<u8>) -> Seq<Seq<u8>>
    decreases rest.len(),
    via blocks_of_decreases
{
    match find_sub(rest, spec_delimiter()) {
        None => Seq::empty(),
        Some(p) => seq![rest.take(p)] + blocks_of(rest.skip(p + 4)),
    }
}

#[via_fn]
proof fn blocks_of_decreases(rest: Seq<u8>) {
    lemma_find_sub(rest, spec_delimiter());
}

/// The records a species block of 4-byte chunks decodes to, chunk by chunk.
pub open spec fn decode_block(b: Seq<u8>) -> Seq<Move>
    recommends
        b.len() % 4 == 0,
    decreases b.len(),
{
    if b.len() < 4 {
        Seq::empty()
    } else {
        seq![spec_decode(b.take(4))] + decode_block(b.skip(4))
    }
}

/// Collects the raw species blocks of `data`, whose first 4 bytes are the
/// delimiter that ended the header: every stretch between two consecutive
/// delimiters, in encounter order.  Trailing bytes after the last delimiter
/// are dropped.
pub fn list_pokemon_data(data: &[u8]) -> (r: Vec<Vec<u8>>)
    requires
        data@.len() >= 4,
    ensures
        r@.map_values(|v: Vec<u8>| v@) == blocks_of(data@.skip(4)),
{
    let ghost whole = data@.skip(4);
    let mut rest: &[u8] = vstd::slice::slice_subrange(data, 4, data.len());
    let mut out: Vec<Vec<u8>> = Vec::new();
    proof {
        assert(out@.map_values(|v: Vec<u8>| v@) + blocks_of(rest@) =~= blocks_of(whole));
    }
    loop
        invariant
            out@.map_values(|v: Vec<u8>| v@) + blocks_of(rest@) =~= blocks_of(whole),
        ensures
            out@.map_values(|v: Vec<u8>| v@) =~= blocks_of(whole),
        decreases rest@.len(),
    {
        proof {
            assert(POKEMON_DELIMITER@ =~= spec_delimiter());
        }
        match split(rest, POKEMON_DELIMITER.as_slice()) {
            None => {
                break;
            },
            Some((block, after)) => {
                let ghost p = find_sub(rest@, spec_delimiter())->Some_0;
                proof {
                    lemma_find_sub(rest@, spec_delimiter());
                    assert(blocks_of(rest@) == seq![rest@.take(p)] + blocks_of(
                        rest@.skip(p + 4),
                    ));
                }
                let ghost old_out = out@;
                let ghost old_rest = rest@;
                out.push(vstd::slice::slice_to_vec(block));
                rest = vstd::slice::slice_subrange(after, 4, after.len());
                proof {
                    assert(rest@ =~= old_rest.skip(p + 4));
                    assert(out@.map_values(|v: Vec<u8>| v@) =~= old_out.map_values(
                        |v: Vec<u8>| v@,
                    ).push(old_rest.take(p)));
                }
            },
        }
    }
    out
}

/// The failures the codec and the index-checked mutation entry points report.
#[derive(Debug, Clone, Copy, PartialEq, Eq, Structural)]
pub enum SaveFileError {
    /// No delimiter occurs anywhere in the input: parsing aborts.
    MalformedContainer,
    /// A species block's byte length is not a multiple of 4: parsing aborts.
    MalformedRecord,
    /// A caller-supplied species index lies beyond the parsed roster.
    IndexOutOfRange,
}

/// Every block's byte length is a multiple of 4.
pub open spec fn all_blocks_aligned(bs: Seq<Seq<u8>>) -> bool {
    forall|i: int| 0 <= i < bs.len() ==> #[trigger] bs[i].len() % 4 == 0
}

/// What parsing a byte buffer yields: the opaque header (everything before the
/// first delimiter) and the decoded species blocks, or the error that aborts
/// it.
pub open spec fn spec_parse(bytes: Seq<u8>) -> Result<(Seq<u8>, Seq<Seq<Move>>), SaveFileError> {
    match find_sub(bytes, spec_delimiter()) {
        None => Err(SaveFileError::MalformedContainer),
        Some(p) => {
            let bs = blocks_of(bytes.skip(p + 4));
            if all_blocks_aligned(bs) {
                Ok((bytes.take(p), bs.map_values(|b: Seq<u8>| decode_block(b))))
            } else {
                Err(SaveFileError::MalformedRecord)
            }
        },
    }
}

/// The in-memory model of a save file: an opaque header carried byte-for-byte,
/// and one ordered move list per species, in block encounter order.
pub struct SaveFile {
    pub file_start: Vec<u8>,
    pub pokemons: Vec<Vec<Move>>,
}

impl SaveFile {
    /// The header bytes, never interpreted, only preserved.
    pub open spec fn header(self) -> Seq<u8> {
        self.file_start@
    }

    /// The per-species move lists as mathematical sequences.
    pub open spec fn species(self) -> Seq<Seq<Move>> {
        self.pokemons@.map_values(|v: Vec<Move>| v@)
    }

    /// Parse a full save-file buffer into its model.  Exactly the buffers in
    /// which the delimiter occurs and every species block is a whole number of
    /// 4-byte records parse successfully; `spec_parse` names both the model
    /// and the error of every other input.
    #[verifier::loop_isolation(false)]
    pub fn parse(value: &[u8]) -> (r: Result<SaveFile, SaveFileError>)
        ensures
            r is Ok <==> spec_parse(value@) is Ok,
            r is Ok ==> r->Ok_0.header() == spec_parse(value@)->Ok_0.0,
            r is Ok ==> r->Ok_0.species() == spec_parse(value@)->Ok_0.1,
            r is Err ==> r->Err_0 == spec_parse(value@)->Err_0,
    {
        proof {
            assert(POKEMON_DELIMITER@ =~= spec_delimiter());
        }
        match split(value, POKEMON_DELIMITER.as_slice()) {
            None => Err(SaveFileError::MalformedContainer),
            Some((file_start, pokemon)) => {
                let ghost p = find_sub(value@, spec_delimiter())->Some_0;
                proof {
                    lemma_find_sub(value@, spec_delimiter());
                    assert(pokemon@.skip(4) =~= value@.skip(p + 4));
                }
                let ghost bs = blocks_of(value@.skip(p + 4));
                let blocks = list_pokemon_data(pokemon);
                let mut pokemons: Vec<Vec<Move>> = Vec::new();
                let mut bi: usize = 0;
                while bi < blocks.len()
                    invariant
                        blocks@.map_values(|v: Vec<u8>| v@) == bs,
                        0 <= bi <= blocks@.len(),
                        forall|j: int| 0 <= j < bi ==> #[trigger] bs[j].len() % 4 == 0,
                        pokemons@.len() == bi,
                        forall|j: int|
                            0 <= j < bi ==> #[trigger] pokemons@[j]@ == decode_block(bs[j]),
                    decreases blocks@.len() - bi,
                {
                    let block: &Vec<u8> = &blocks[bi];
                    proof {
                        assert(block@ == bs[bi as int]);
                    }
                    if block.len() % 4 != 0 {
                        proof {
                            assert(!all_blocks_aligned(bs));
                        }
                        return Err(SaveFileError::MalformedRecord);
                    }
                    let moves = decode_moves(block.as_slice());
                    pokemons.push(moves);
                    bi = bi + 1;
                }
                proof {
                    assert(all_blocks_aligned(bs));
                    assert(pokemons@.map_values(|v: Vec<Move>| v@) =~= bs.map_values(
                        |b: Seq<u8>| decode_block(b),
                    ));
                }
                Ok(SaveFile { file_start: vstd::slice::slice_to_vec(file_start), pokemons })
            },
        }
    }
}

/// Decode a species block, already known to be 4-byte aligned, into its
/// records in order.
#[verifier::loop_isolation(false)]
fn decode_moves(block: &[u8]) -> (r: Vec<Move>)
    requires
        block@.len() % 4 == 0,
    ensures
        r@ == decode_block(block@),
{
    let mut r: Vec<Move> = Vec::new();
    let mut i: usize = 0;
    proof {
        assert(block@.skip(0) =~= block@);
        assert(r@ + decode_block(block@) =~= decode_block(block@));
    }
    while i < block.len()
        invariant
            i % 4 == 0,
            0 <= i <= block@.len(),
            r@ + decode_block(block@.skip(i as int)) == decode_block(block@),
        decreases block@.len() - i,
    {
        proof {
            assert(i + 4 <= block@.len());
        }
        let chunk: [u8; 4] = [block[i], block[i + 1], block[i + 2], block[i + 3]];
        proof {
            assert(chunk@ =~= block@.skip(i as int).take(4));
        }
        let m = Move::decode(&chunk);
        let ghost old_r = r@;
        r.push(m);
        proof {
            assert(block@.skip(i as int).skip(4) =~= block@.skip(i as int + 4));
            assert(decode_block(block@.skip(i as int)) == seq![
                spec_decode(block@.skip(i as int).take(4)),
            ] + decode_block(block@.skip(i as int + 4)));
            assert(r@ + decode_block(block@.skip(i as int + 4)) =~= old_r + decode_block(
                block@.skip(i as int),
            ));
        }
        i = i + 4;
    }
    proof {
        assert(i == block@.len());
        assert(decode_block(block@.skip(i as int)) =~= Seq::empty());
        assert(r@ =~= r@ + decode_block(block@.skip(i as int)));
    }
    r
}

/// The bytes a move list serializes to: each record's 4-byte encoding, in
/// list order.
pub open spec fn encode_moves(ms: Seq<Move>) -> Seq<u8>
    decreases ms.len(),
{
    if ms.len() == 0 {
        Seq::empty()
    } else {
        spec_encode(ms[0]) + encode_moves(ms.drop_first())
    }
}

/// The bytes the species blocks serialize to: each block's records followed by
/// one delimiter, block after block.
pub open spec fn blocks_bytes(species: Seq<Seq<Move>>) -> Seq<u8>
    decreases species.len(),
{
    if species.len() == 0 {
        Seq::empty()
    } else {
        encode_moves(species[0]) + spec_delimiter() + blocks_bytes(species.drop_first())
    }
}

/// The buffer a container model serializes to: the header, one delimiter, then
/// every species block each terminated by a delimiter.
pub open spec fn spec_serialize(header: Seq<u8>, species: Seq<Seq<Move>>) -> Seq<u8> {
    header + spec_delimiter() + blocks_bytes(species)
}

/// `encode_moves` distributes over concatenation.
pub proof fn lemma_encode_moves_add(a: Seq<Move>, b: Seq<Move>)
    ensures
        encode_moves(a + b) == encode_moves(a) + encode_moves(b),
    decreases a.len(),
{
    if a.len() == 0 {
        assert(a + b =~= b);
        assert(encode_moves(a) + encode_moves(b) =~= encode_moves(b));
    } else {
        assert((a + b).drop_first() =~= a.drop_first() + b);
        lemma_encode_moves_add(a.drop_first(), b);
        assert((a + b)[0] == a[0]);
        assert(spec_encode(a[0]) + (encode_moves(a.drop_first()) + encode_moves(b))
            =~= (spec_encode(a[0]) + encode_moves(a.drop_first())) + encode_moves(b));
    }
}

/// `blocks_bytes` distributes over concatenation.
pub proof fn lemma_blocks_bytes_add(a: Seq<Seq<Move>>, b: Seq<Seq<Move>>)
    ensures
        blocks_bytes(a + b) == blocks_bytes(a) + blocks_bytes(b),
    decreases a.len(),
{
    if a.len() == 0 {
        assert(a + b =~= b);
        assert(blocks_bytes(a) + blocks_bytes(b) =~= blocks_bytes(b));
    } else {
        assert((a + b).drop_first() =~= a.drop_first() + b);
        lemma_blocks_bytes_add(a.drop_first(), b);
        assert((a + b)[0] == a[0]);
        assert(encode_moves(a[0]) + spec_delimiter() + (blocks_bytes(a.drop_first())
            + blocks_bytes(b)) =~= (encode_moves(a[0]) + spec_delimiter() + blocks_bytes(
            a.drop_first(),
        )) + blocks_bytes(b));
    }
}

/// Append every byte of `src` to `dst`.
#[verifier::loop_isolation(false)]
fn push_all(dst: &mut Vec<u8>, src: &[u8])
    ensures
        final(dst)@ == old(dst)@ + src@,
{
    let mut i: usize = 0;
    proof {
        assert(dst@ =~= old(dst)@ + src@.take(0));
    }
    while i < src.len()
        invariant
            0 <= i <= src@.len(),
            dst@ == old(dst)@ + src@.take(i as int),
        decreases src@.len() - i,
    {
        let b = src[i];
        proof {
            assert(src@.take(i as int + 1) =~= src@.take(i as int).push(src@[i as int]));
            assert(old(dst)@ + src@.take(i as int + 1) =~= (old(dst)@ + src@.take(i as int)).push(
                src@[i as int],
            ));
        }
        dst.push(b);
        i = i + 1;
    }
    proof {
        assert(src@.take(src@.len() as int) =~= src@);
    }
}

impl SaveFile {
    /// Serialize the model back into a byte buffer, consuming it: header,
    /// delimiter, then each species' records followed by a delimiter.  Nothing
    /// follows the final delimiter.
    #[must_use]
    #[verifier::loop_isolation(false)]
    pub fn to_binary_format(self) -> (r: Vec<u8>)
        ensures
            r@ == spec_serialize(self.header(), self.species()),
    {
        let ghost h = self.header();
        let ghost sp = self.species();
        let SaveFile { file_start, pokemons } = self;
        let mut result = file_start;
        proof {
            assert(POKEMON_DELIMITER@ =~= spec_delimiter());
        }
        push_all(&mut result, POKEMON_DELIMITER.as_slice());
        proof {
            assert(blocks_bytes(sp.take(0)) =~= Seq::empty());
            assert(result@ =~= h + spec_delimiter() + blocks_bytes(sp.take(0)));
        }
        let mut i: usize = 0;
        while i < pokemons.len()
            invariant
                sp == pokemons@.map_values(|v: Vec<Move>| v@),
                0 <= i <= pokemons@.len(),
                result@ == h + spec_delimiter() + blocks_bytes(sp.take(i as int)),
            decreases pokemons@.len() - i,
        {
            let moves: &Vec<Move> = &pokemons[i];
            let ghost ms = moves@;
            let ghost base = result@;
            proof {
                assert(encode_moves(ms.take(0)) =~= Seq::empty());
                assert(result@ =~= base + encode_moves(ms.take(0)));
            }
            let mut j: usize = 0;
            while j < moves.len()
                invariant
                    ms == moves@,
                    0 <= j <= ms.len(),
                    result@ == base + encode_moves(ms.take(j as int)),
                decreases ms.len() - j,
            {
                let enc: [u8; 4] = moves[j].encode();
                proof {
                    assert(ms.take(j as int + 1) =~= ms.take(j as int) + seq![ms[j as int]]);
                    lemma_encode_moves_add(ms.take(j as int), seq![ms[j as int]]);
                    assert(seq![ms[j as int]].drop_first() =~= Seq::<Move>::empty());
                    assert(encode_moves(seq![ms[j as int]]) =~= spec_encode(ms[j as int])) by {
                        reveal_with_fuel(encode_moves, 2);
                    }
                    assert(base + encode_moves(ms.take(j as int + 1)) =~= (base + encode_moves(
                        ms.take(j as int),
                    )) + spec_encode(ms[j as int]));
                }
                push_all(&mut result, enc.as_slice());
                j = j + 1;
            }
            proof {
                assert(ms.take(ms.len() as int) =~= ms);
            }
            push_all(&mut result, POKEMON_DELIMITER.as_slice());
            proof {
                assert(sp.take(i as int + 1) =~= sp.take(i as int) + seq![sp[i as int]]);
                lemma_blocks_bytes_add(sp.take(i as int), seq![sp[i as int]]);
                assert(seq![sp[i as int]].drop_first() =~= Seq::<Seq<Move>>::empty());
                assert(blocks_bytes(seq![sp[i as int]]) =~= encode_moves(sp[i as int])
                    + spec_delimiter()) by {
                    reveal_with_fuel(blocks_bytes, 2);
                }
                assert(result@ =~= h + spec_delimiter() + blocks_bytes(sp.take(i as int + 1)));
            }
            i = i + 1;
        }
        proof {
            assert(sp.take(sp.len() as int) =~= sp);
        }
        result
    }
}

/// Encoding inverts block decoding: a species block that is a whole number of
/// 4-byte chunks is reproduced byte-for-byte by re-encoding its records.
pub proof fn lemma_encode_decode_block(b: Seq<u8>)
    requires
        b.len() % 4 == 0,
    ensures
        encode_moves(decode_block(b)) == b,
    decreases b.len(),
{
    if b.len() < 4 {
        assert(b =~= Seq::<u8>::empty());
        assert(encode_moves(decode_block(b)) =~= b);
    } else {
        lemma_encode_decode_block(b.skip(4));
        lemma_encode_decode(b.take(4));
        let d = decode_block(b);
        assert(d.drop_first() =~= decode_block(b.skip(4)));
        assert(encode_moves(d) == spec_encode(d[0]) + encode_moves(d.drop_first()));
        assert(b.take(4) + b.skip(4) =~= b);
    }
}

/// How many bytes of the data after the first delimiter the parsed blocks
/// account for: everything up to and including the last delimiter, 0 when no
/// further delimiter occurs.
pub open spec fn consumed_len(rest: Seq<u8>) -> int
    decreases rest.len(),
    via consumed_len_decreases
{
    match find_sub(rest, spec_delimiter()) {
        None => 0,
        Some(p) => p + 4 + consumed_len(rest.skip(p + 4)),
    }
}

#[via_fn]
proof fn consumed_len_decreases(rest: Seq<u8>) {
    lemma_find_sub(rest, spec_delimiter());
}

/// The length of the well-formed prefix of a buffer: everything up to and
/// including its final delimiter, 0 when it holds no delimiter at all.
pub open spec fn well_formed_prefix_len(bytes: Seq<u8>) -> int {
    match find_sub(bytes, spec_delimiter()) {
        None => 0,
        Some(p) => p + 4 + consumed_len(bytes.skip(p + 4)),
    }
}

/// Re-serializing the aligned blocks of `rest` reproduces `rest` up to and
/// including the last delimiter.
proof fn lemma_blocks_round_trip(rest: Seq<u8>)
    requires
        all_blocks_aligned(blocks_of(rest)),
    ensures
        0 <= consumed_len(rest) <= rest.len(),
        blocks_bytes(blocks_of(rest).map_values(|b: Seq<u8>| decode_block(b))) == rest.take(
            consumed_len(rest),
        ),
    decreases rest.len(),
{
    lemma_find_sub(rest, spec_delimiter());
    match find_sub(rest, spec_delimiter()) {
        None => {
            assert(blocks_of(rest).map_values(|b: Seq<u8>| decode_block(b))
                =~= Seq::<Seq<Move>>::empty());
            assert(blocks_bytes(Seq::<Seq<Move>>::empty()) =~= rest.take(0));
        },
        Some(p) => {
            let tail = rest.skip(p + 4);
            let bs = blocks_of(rest);
            assert(bs == seq![rest.take(p)] + blocks_of(tail));
            assert(bs[0] == rest.take(p));
            assert(bs[0].len() % 4 == 0);
            assert forall|i: int| 0 <= i < blocks_of(tail).len() implies #[trigger] blocks_of(
                tail,
            )[i].len() % 4 == 0 by {
                assert(bs[i + 1] == blocks_of(tail)[i]);
            }
            lemma_blocks_round_trip(tail);
            lemma_encode_decode_block(rest.take(p));
            let f = |b: Seq<u8>| decode_block(b);
            assert(bs.map_values(f) =~= seq![decode_block(rest.take(p))] + blocks_of(
                tail,
            ).map_values(f));
            lemma_blocks_bytes_add(
                seq![decode_block(rest.take(p))],
                blocks_of(tail).map_values(f),
            );
            assert(seq![decode_block(rest.take(p))].drop_first()
                =~= Seq::<Seq<Move>>::empty());
            assert(blocks_bytes(seq![decode_block(rest.take(p))]) =~= encode_moves(
                decode_block(rest.take(p)),
            ) + spec_delimiter()) by {
                reveal_with_fuel(blocks_bytes, 2);
            }
            assert(spec_delimiter() =~= rest.subrange(p, p + 4));
            assert(tail.take(consumed_len(tail)) =~= rest.subrange(p + 4, p + 4 + consumed_len(
                tail,
            )));
            assert(rest.take(p) + rest.subrange(p, p + 4) + rest.subrange(
                p + 4,
                p + 4 + consumed_len(tail),
            ) =~= rest.take(p + 4 + consumed_len(tail)));
        },
    }
}

/// The round-trip law: any buffer that parses successfully is reproduced by
/// serializing the parsed model, byte-for-byte up to and including the final
/// delimiter.  Bytes after the final delimiter are dropped, never preserved.
pub proof fn lemma_parse_serialize_round_trip(bytes: Seq<u8>)
    requires
        spec_parse(bytes) is Ok,
    ensures
        4 <= well_formed_prefix_len(bytes) <= bytes.len(),
        spec_serialize(spec_parse(bytes)->Ok_0.0, spec_parse(bytes)->Ok_0.1) == bytes.take(
            well_formed_prefix_len(bytes),
        ),
{
    let p = find_sub(bytes, spec_delimiter())->Some_0;
    let tail = bytes.skip(p + 4);
    lemma_find_sub(bytes, spec_delimiter());
    lemma_blocks_round_trip(tail);
    assert(spec_delimiter() =~= bytes.subrange(p, p + 4));
    assert(tail.take(consumed_len(tail)) =~= bytes.subrange(p + 4, p + 4 + consumed_len(tail)));
    assert(bytes.take(p) + bytes.subrange(p, p + 4) + bytes.subrange(
        p + 4,
        p + 4 + consumed_len(tail),
    ) =~= bytes.take(p + 4 + consumed_len(tail)));
}

/// The move list is non-decreasing in level.
pub open spec fn sorted_by_level(s: Seq<Move>) -> bool {
    forall|i: int, j: int|
        0 <= i < j < s.len() ==> #[trigger] s[i].level <= #[trigger] s[j].level
}

/// Where `insert_sorted` places an entry of the given level: the first
/// position whose existing entry's level is strictly greater, or the end of
/// the list if no such position exists.
pub open spec fn insert_pos(s: Seq<Move>, level: u16) -> int
    decreases s.len(),
{
    if s.len() == 0 {
        0
    } else if s[0].level > level {
        0
    } else {
        1 + insert_pos(s.drop_first(), level)
    }
}

/// What `insert_pos` returns: a position within the list bounds, with only
/// levels at most `level` before it and a strictly greater level at it, if it
/// is not the end.
pub proof fn lemma_insert_pos(s: Seq<Move>, level: u16)
    ensures
        0 <= insert_pos(s, level) <= s.len(),
        forall|j: int| 0 <= j < insert_pos(s, level) ==> #[trigger] s[j].level <= level,
        insert_pos(s, level) < s.len() ==> s[insert_pos(s, level)].level > level,
    decreases s.len(),
{
    if s.len() == 0 {
    } else if s[0].level > level {
    } else {
        lemma_insert_pos(s.drop_first(), level);
        assert forall|j: int| 0 <= j < insert_pos(s, level) implies #[trigger] s[j].level
            <= level by {
            if j >= 1 {
                assert(s.drop_first()[j - 1] == s[j]);
            }
        }
        if insert_pos(s, level) < s.len() {
            assert(s.drop_first()[insert_pos(s, level) - 1] == s[insert_pos(s, level)]);
        }
    }
}

/// `insert_pos` is the only position with the boundary property: at most
/// `level` everywhere before it, strictly greater at it unless it is the end.
pub proof fn lemma_insert_pos_unique(s: Seq<Move>, level: u16, i: int)
    requires
        0 <= i <= s.len(),
        forall|j: int| 0 <= j < i ==> #[trigger] s[j].level <= level,
        i < s.len() ==> s[i].level > level,
    ensures
        insert_pos(s, level) == i,
    decreases s.len(),
{
    if s.len() == 0 {
    } else if s[0].level > level {
        assert(i == 0);
    } else {
        assert(i >= 1);
        assert forall|j: int| 0 <= j < i - 1 implies #[trigger] s.drop_first()[j].level
            <= level by {
            assert(s.drop_first()[j] == s[j + 1]);
        }
        if i - 1 < s.drop_first().len() {
            assert(s.drop_first()[i - 1] == s[i]);
        }
        lemma_insert_pos_unique(s.drop_first(), level, i - 1);
    }
}

/// Insert `entry` before the first existing entry whose level is strictly
/// greater, or at the end if no entry's level is greater.  Entries of equal
/// level therefore all stay before the new one, and no entry other than those
/// after the insertion point moves.
#[verifier::loop_isolation(false)]
pub fn insert_sorted(list: &mut Vec<Move>, entry: Move)
    ensures
        final(list)@ == old(list)@.insert(insert_pos(old(list)@, entry.level), entry),
{
    let mut i: usize = 0;
    while i < list.len() && list[i].level <= entry.level
        invariant
            0 <= i <= list@.len(),
            list@ == old(list)@,
            forall|j: int| 0 <= j < i ==> #[trigger] list@[j].level <= entry.level,
        decreases list@.len() - i,
    {
        i = i + 1;
    }
    proof {
        lemma_insert_pos_unique(list@, entry.level, i as int);
    }
    list.insert(i, entry);
}

/// A list built only by sorted insertions stays non-decreasing in level:
/// one `insert_sorted` step preserves sortedness, and the empty list is
/// sorted, so any sequence of such calls ends sorted.
pub proof fn lemma_insert_sorted_preserves_sorted(s: Seq<Move>, e: Move)
    requires
        sorted_by_level(s),
    ensures
        sorted_by_level(s.insert(insert_pos(s, e.level), e)),
{
    lemma_insert_pos(s, e.level);
    let p = insert_pos(s, e.level);
    let r = s.insert(p, e);
    s.insert_ensures(p, e);
    assert forall|i: int, j: int| 0 <= i < j < r.len() implies #[trigger] r[i].level
        <= #[trigger] r[j].level by {
        if i < p {
            assert(r[i] == s[i]);
        } else if i == p {
            assert(r[i] == e);
        } else {
            assert(r[i] == s[i - 1]);
        }
        if j < p {
            assert(r[j] == s[j]);
        } else if j == p {
            assert(r[j] == e);
        } else {
            assert(r[j] == s[j - 1]);
        }
    }
}

/// Sorted insertion is stable: the new entry lands exactly at `insert_pos`,
/// and every existing entry with the same level keeps its index, before the
/// new one, never after.
pub proof fn lemma_insert_sorted_stable(s: Seq<Move>, e: Move)
    requires
        sorted_by_level(s),
    ensures
        s.insert(insert_pos(s, e.level), e)[insert_pos(s, e.level)] == e,
        forall|j: int|
            0 <= j < s.len() && s[j].level == e.level ==> j < insert_pos(s, e.level)
                && #[trigger] s.insert(insert_pos(s, e.level), e)[j] == s[j],
{
    lemma_insert_pos(s, e.level);
    let p = insert_pos(s, e.level);
    s.insert_ensures(p, e);
    assert forall|j: int| 0 <= j < s.len() && s[j].level == e.level implies j < p
        && #[trigger] s.insert(p, e)[j] == s[j] by {
        if j >= p {
            if p < s.len() {
                assert(s[p].level > e.level);
                if j > p {
                    assert(s[p].level <= s[j].level);
                }
            }
            assert(false);
        }
    }
}

/// Remove every entry structurally equal to `entry`, preserving the relative
/// order of the remaining entries.  Returns whether at least one entry was
/// removed; absence is a normal, negative outcome, not an error.
#[verifier::loop_isolation(false)]
pub fn remove_by_equality(list: &mut Vec<Move>, entry: Move) -> (removed: bool)
    ensures
        final(list)@ == old(list)@.filter(|m: Move| m != entry),
        removed <==> old(list)@.contains(entry),
{
    let mut kept: Vec<Move> = Vec::new();
    let mut removed: bool = false;
    let mut i: usize = 0;
    proof {
        reveal(Seq::filter);
        assert(list@.take(0) =~= Seq::<Move>::empty());
    }
    while i < list.len()
        invariant
            0 <= i <= list@.len(),
            list@ == old(list)@,
            kept@ == list@.take(i as int).filter(|m: Move| m != entry),
            removed <==> list@.take(i as int).contains(entry),
        decreases list@.len() - i,
    {
        let m = list[i];
        proof {
            reveal(Seq::filter);
            assert(list@.take(i as int + 1) =~= list@.take(i as int).push(m));
            assert(list@.take(i as int + 1).drop_last() =~= list@.take(i as int));
        }
        if m == entry {
            removed = true;
            proof {
                assert(list@.take(i as int + 1)[i as int] == entry);
            }
        } else {
            kept.push(m);
        }
        proof {
            if list@.take(i as int).contains(entry) {
                let k = choose|k: int|
                    0 <= k < i && #[trigger] list@.take(i as int)[k] == entry;
                assert(list@.take(i as int + 1)[k] == entry);
            }
            if list@.take(i as int + 1).contains(entry) && m != entry {
                let k = choose|k: int|
                    0 <= k < i + 1 && #[trigger] list@.take(i as int + 1)[k] == entry;
                assert(k < i);
                assert(list@.take(i as int)[k] == entry);
            }
        }
        i = i + 1;
    }
    proof {
        assert(list@.take(list@.len() as int) =~= list@);
    }
    *list = kept;
    removed
}

impl SaveFile {
    /// Sorted insertion into the move list of the species at `index`, with
    /// the index checked against the parsed roster: an out-of-range index is
    /// surfaced as an error and the container is left untouched.
    pub fn insert_move(&mut self, index: usize, entry: Move) -> (r: Result<(), SaveFileError>)
        ensures
            final(self).header() == old(self).header(),
            index < old(self).species().len() ==> {
                &&& r is Ok
                &&& final(self).species() == old(self).species().update(
                    index as int,
                    old(self).species()[index as int].insert(
                        insert_pos(old(self).species()[index as int], entry.level),
                        entry,
                    ),
                )
            },
            index >= old(self).species().len() ==> r == Err::<(), SaveFileError>(
                SaveFileError::IndexOutOfRange,
            ) && *final(self) == *old(self),
    {
        if index >= self.pokemons.len() {
            return Err(SaveFileError::IndexOutOfRange);
        }
        let list = &mut self.pokemons[index];
        insert_sorted(list, entry);
        proof {
            assert(self.species() =~= old(self).species().update(
                index as int,
                old(self).species()[index as int].insert(
                    insert_pos(old(self).species()[index as int], entry.level),
                    entry,
                ),
            ));
        }
        Ok(())
    }

    /// Removal by structural equality from the move list of the species at
    /// `index`, with the index checked against the parsed roster.  `Ok(true)`
    /// reports that at least one entry was removed; `Ok(false)` that none was
    /// present, which is not an error.
    pub fn remove_move(&mut self, index: usize, entry: Move) -> (r: Result<bool, SaveFileError>)
        ensures
            final(self).header() == old(self).header(),
            index < old(self).species().len() ==> {
                &&& r is Ok
                &&& (r->Ok_0 <==> old(self).species()[index as int].contains(entry))
                &&& final(self).species() == old(self).species().update(
                    index as int,
                    old(self).species()[index as int].filter(|m: Move| m != entry),
                )
            },
            index >= old(self).species().len() ==> r == Err::<bool, SaveFileError>(
                SaveFileError::IndexOutOfRange,
            ) && *final(self) == *old(self),
    {
        if index >= self.pokemons.len() {
            return Err(SaveFileError::IndexOutOfRange);
        }
        let list = &mut self.pokemons[index];
        let removed = remove_by_equality(list, entry);
        proof {
            assert(self.species() =~= old(self).species().update(
                index as int,
                old(self).species()[index as int].filter(|m: Move| m != entry),
            ));
        }
        Ok(removed)
    }
}

/// What removal by equality leaves behind: the list shrinks by exactly the
/// count of structural matches, no entry equal to the target remains, and a
/// list without the target is left unchanged.
pub proof fn lemma_remove_by_equality(s: Seq<Move>, e: Move)
    ensures
        s.filter(|m: Move| m != e).len() == s.len() - s.filter(|m: Move| m == e).len(),
        !s.filter(|m: Move| m != e).contains(e),
        !s.contains(e) ==> s.filter(|m: Move| m != e) == s,
    decreases s.len(),
{
    reveal(Seq::filter);
    if s.len() == 0 {
        assert(!s.filter(|m: Move| m != e).contains(e));
    } else {
        lemma_remove_by_equality(s.drop_last(), e);
        let r = s.filter(|m: Move| m != e);
        let rl = s.drop_last().filter(|m: Move| m != e);
        if r.contains(e) {
            let k = choose|k: int| 0 <= k < r.len() && r[k] == e;
            if s.last() != e {
                if k < r.len() - 1 {
                    assert(rl[k] == e);
                }
            } else {
                assert(rl[k] == e);
            }
            assert(false);
        }
        if !s.contains(e) {
            assert(!s.drop_last().contains(e)) by {
                if s.drop_last().contains(e) {
                    let k = choose|k: int|
                        0 <= k < s.len() - 1 && #[trigger] s.drop_last()[k] == e;
                    assert(s[k] == e);
                }
            }
            assert(s.last() != e);
            assert(s.filter(|m: Move| m != e) =~= s);
        }
    }
}

} // verus!
