//! Frame accumulation and delivery: the cache of the last known frame per
//! name, the consolidated ordered frame sets it produces, the capacity-one
//! channel slot they are emitted through, and the producer state machine that
//! drives polling, decoding, merging and emission.

use crate::decoder::{normalize_frame, spec_normalize};
use crate::image_decoder::{
    decode_snapshot, spec_snapshot_description, spec_snapshot_records, NamedImageView, RawFrame,
    SpecImage,
};
use vstd::prelude::*;
use vstd::slice::slice_to_vec;
use vstd::string::*;
use vstd::utf8::{encode_utf8, encode_utf8_decode_utf8};

verus! {

/// The mathematical value of one decoded, normalized frame.
#[verifier::ext_equal]
pub ghost struct SpecFrame {
    pub name: Seq<char>,
    pub width: u32,
    pub height: u32,
    pub rgba: Seq<u8>,
}

/// One decoded frame: a name, its dimensions, and an owned RGBA pixel buffer
/// that survives independently of the snapshot it came from.
#[derive(Debug)]
pub struct Frame {
    pub name: String,
    pub width: u32,
    pub height: u32,
    pub rgba: Vec<u8>,
}

impl View for Frame {
    type V = SpecFrame;

    open spec fn view(&self) -> SpecFrame {
        SpecFrame { name: self.name@, width: self.width, height: self.height, rgba: self.rgba@ }
    }
}

impl DeepView for Frame {
    type V = SpecFrame;

    open spec fn deep_view(&self) -> SpecFrame {
        self.view()
    }
}

impl Frame {
    /// An independent copy of this frame.
    pub fn duplicate(&self) -> (r: Frame)
        ensures
            r@ == self@,
    {
        Frame {
            name: self.name.clone(),
            width: self.width,
            height: self.height,
            rgba: slice_to_vec(self.rgba.as_slice()),
        }
    }
}

/// The mathematical value of one consolidated frame set.
#[verifier::ext_equal]
pub ghost struct SpecFrames {
    pub description: Seq<char>,
    pub frames: Seq<SpecFrame>,
}

/// A consolidated frame set: a description and the ordered frames of one
/// consumer-visible update.
#[derive(Debug)]
pub struct Frames {
    pub description: String,
    pub frames: Vec<Frame>,
}

impl View for Frames {
    type V = SpecFrames;

    open spec fn view(&self) -> SpecFrames {
        SpecFrames { description: self.description@, frames: self.frames.deep_view() }
    }
}

impl DeepView for Frames {
    type V = SpecFrames;

    open spec fn deep_view(&self) -> SpecFrames {
        self.view()
    }
}

/// The reserved frame name that is promoted to the front of every snapshot.
pub open spec fn main_name() -> Seq<char> {
    "Main"@
}

/// Strict lexicographic order on byte sequences: a proper prefix comes first,
/// otherwise the first differing byte decides.
pub open spec fn bytes_lt(a: Seq<u8>, b: Seq<u8>) -> bool
    decreases a.len(),
{
    if b.len() == 0 {
        false
    } else if a.len() == 0 {
        true
    } else if a[0] != b[0] {
        a[0] < b[0]
    } else {
        bytes_lt(a.drop_first(), b.drop_first())
    }
}

/// The cache key of a frame name: its UTF-8 encoding, whose byte order agrees
/// with the order of the scalar values it encodes.
pub open spec fn name_key(name: Seq<char>) -> Seq<u8> {
    encode_utf8(name)
}

pub proof fn lemma_bytes_lt_irrefl(a: Seq<u8>)
    ensures
        !bytes_lt(a, a),
    decreases a.len(),
{
    if a.len() > 0 {
        lemma_bytes_lt_irrefl(a.drop_first());
    }
}

pub proof fn lemma_bytes_lt_trans(a: Seq<u8>, b: Seq<u8>, c: Seq<u8>)
    requires
        bytes_lt(a, b),
        bytes_lt(b, c),
    ensures
        bytes_lt(a, c),
    decreases a.len(),
{
    if b.len() > 0 && c.len() > 0 && a.len() > 0 {
        if a[0] == b[0] && b[0] == c[0] {
            lemma_bytes_lt_trans(a.drop_first(), b.drop_first(), c.drop_first());
        }
    }
}

/// Two names with the same key are the same name.
pub proof fn lemma_name_key_injective(a: Seq<char>, b: Seq<char>)
    requires
        name_key(a) == name_key(b),
    ensures
        a == b,
{
    encode_utf8_decode_utf8(a);
    encode_utf8_decode_utf8(b);
}

proof fn lemma_lt_skip(a: Seq<u8>, b: Seq<u8>, i: int)
    requires
        0 <= i <= a.len(),
        i <= b.len(),
        forall|j: int| 0 <= j < i ==> a[j] == b[j],
    ensures
        bytes_lt(a, b) <==> bytes_lt(a.skip(i), b.skip(i)),
    decreases i,
{
    if i > 0 {
        assert(a[0] == b[0]);
        assert(bytes_lt(a, b) == bytes_lt(a.drop_first(), b.drop_first()));
        assert(a.drop_first().skip(i - 1) =~= a.skip(i));
        assert(b.drop_first().skip(i - 1) =~= b.skip(i));
        lemma_lt_skip(a.drop_first(), b.drop_first(), i - 1);
    } else {
        assert(a.skip(0) =~= a);
        assert(b.skip(0) =~= b);
    }
}

enum KeyOrder {
    Less,
    Equal,
    Greater,
}

fn compare_names(a: &str, b: &str) -> (r: KeyOrder)
    ensures
        r is Less <==> bytes_lt(a.spec_bytes(), b.spec_bytes()),
        r is Equal <==> a@ == b@,
        r is Greater <==> bytes_lt(b.spec_bytes(), a.spec_bytes()),
{
    let ab = a.as_bytes();
    let bb = b.as_bytes();
    let mut i: usize = 0;
    while i < ab.len() && i < bb.len()
        invariant
            i <= ab@.len(),
            i <= bb@.len(),
            ab@ == a.spec_bytes(),
            bb@ == b.spec_bytes(),
            forall|j: int| 0 <= j < i ==> ab@[j] == bb@[j],
        decreases ab@.len() - i,
    {
        if ab[i] < bb[i] {
            proof {
                lemma_lt_skip(ab@, bb@, i as int);
                lemma_lt_skip(bb@, ab@, i as int);
            }
            return KeyOrder::Less;
        }
        if ab[i] > bb[i] {
            proof {
                lemma_lt_skip(ab@, bb@, i as int);
                lemma_lt_skip(bb@, ab@, i as int);
            }
            return KeyOrder::Greater;
        }
        i = i + 1;
    }
    proof {
        lemma_lt_skip(ab@, bb@, i as int);
        lemma_lt_skip(bb@, ab@, i as int);
    }
    if ab.len() == bb.len() {
        proof {
            assert(ab@ =~= bb@);
            lemma_name_key_injective(a@, b@);
            lemma_bytes_lt_irrefl(ab@);
        }
        KeyOrder::Equal
    } else if ab.len() < bb.len() {
        KeyOrder::Less
    } else {
        KeyOrder::Greater
    }
}

/// Entries stand in strictly ascending key order.
spec fn sorted_frames(s: Seq<SpecFrame>) -> bool {
    forall|i: int, j: int| 0 <= i < j < s.len() ==> bytes_lt(
        name_key(s[i].name),
        name_key(s[j].name),
    )
}

/// No two entries share a name.
spec fn unique_names(s: Seq<SpecFrame>) -> bool {
    forall|i: int, j: int| 0 <= i < j < s.len() ==> s[i].name != s[j].name
}

proof fn lemma_sorted_unique(s: Seq<SpecFrame>)
    requires
        sorted_frames(s),
    ensures
        unique_names(s),
{
    assert forall|i: int, j: int| 0 <= i < j < s.len() implies s[i].name != s[j].name by {
        if s[i].name == s[j].name {
            lemma_bytes_lt_irrefl(name_key(s[i].name));
        }
    }
}

/// The name-to-frame mapping a sequence of frames holds.
spec fn cache_map(s: Seq<SpecFrame>) -> Map<Seq<char>, SpecFrame> {
    Map::new(
        |name: Seq<char>| exists|i: int| 0 <= i < s.len() && s[i].name == name,
        |name: Seq<char>|
            s[choose|i: int| 0 <= i < s.len() && s[i].name == name],
    )
}

proof fn lemma_cache_map_at(s: Seq<SpecFrame>, i: int)
    requires
        unique_names(s),
        0 <= i < s.len(),
    ensures
        cache_map(s).contains_key(s[i].name),
        cache_map(s)[s[i].name] == s[i],
{
    assert(0 <= i < s.len() && s[i].name == s[i].name);
    let w = choose|w: int| 0 <= w < s.len() && s[w].name == s[i].name;
    assert(w == i);
}

/// The last known frame for each name, kept in strictly ascending key order
/// of names; entries are only ever replaced by a same-named merge, never
/// evicted.
pub struct FrameCache {
    frames: Vec<Frame>,
}

impl View for FrameCache {
    type V = Map<Seq<char>, SpecFrame>;

    closed spec fn view(&self) -> Map<Seq<char>, SpecFrame> {
        cache_map(self.frames.deep_view())
    }
}

impl FrameCache {
    /// The cache's internal order invariant.
    pub closed spec fn wf(&self) -> bool {
        sorted_frames(self.frames.deep_view())
    }

    /// An empty cache.
    pub fn new() -> (c: FrameCache)
        ensures
            c.wf(),
            c@ == Map::<Seq<char>, SpecFrame>::empty(),
    {
        let c = FrameCache { frames: Vec::new() };
        proof {
            assert(c@ =~= Map::<Seq<char>, SpecFrame>::empty());
        }
        c
    }

    /// Inserts a frame under its name, replacing any previous frame of that
    /// name and leaving every other entry unchanged.
    #[verifier::loop_isolation(false)]
    pub fn merge(&mut self, frame: Frame)
        requires
            old(self).wf(),
        ensures
            final(self).wf(),
            final(self)@ == old(self)@.insert(frame@.name, frame@),
    {
        let ghost s0 = self.frames.deep_view();
        proof {
            lemma_sorted_unique(s0);
        }
        let mut i: usize = 0;
        while i < self.frames.len()
            invariant
                self.frames.deep_view() == s0,
                sorted_frames(s0),
                unique_names(s0),
                i <= s0.len(),
                forall|j: int| 0 <= j < i ==> bytes_lt(
                    name_key(s0[j].name),
                    name_key(frame@.name),
                ),
            decreases s0.len() - i,
        {
            let order = compare_names(self.frames[i].name.as_str(), frame.name.as_str());
            match order {
                KeyOrder::Less => {
                    i = i + 1;
                },
                KeyOrder::Equal => {
                    self.frames.remove(i);
                    self.frames.insert(i, frame);
                    proof {
                        let t = self.frames.deep_view();
                        assert(t =~= s0.update(i as int, frame@));
                        lemma_cache_replace(s0, i as int, frame@);
                    }
                    return ;
                },
                KeyOrder::Greater => {
                    proof {
                        assert forall|j: int| i < j < s0.len() implies bytes_lt(
                            name_key(frame@.name),
                            name_key(s0[j].name),
                        ) by {
                            lemma_bytes_lt_trans(
                                name_key(frame@.name),
                                name_key(s0[i as int].name),
                                name_key(s0[j].name),
                            );
                        }
                    }
                    self.frames.insert(i, frame);
                    proof {
                        let t = self.frames.deep_view();
                        assert(t =~= s0.insert(i as int, frame@));
                        lemma_cache_insert(s0, i as int, frame@);
                    }
                    return ;
                },
            }
        }
        self.frames.insert(i, frame);
        proof {
            let t = self.frames.deep_view();
            assert(t =~= s0.insert(i as int, frame@));
            lemma_cache_insert(s0, i as int, frame@);
        }
    }
}

/// Replacing the entry at `i`, whose name `f` shares, keeps the order and
/// performs a map insert.
proof fn lemma_cache_replace(s: Seq<SpecFrame>, i: int, f: SpecFrame)
    requires
        sorted_frames(s),
        unique_names(s),
        0 <= i < s.len(),
        s[i].name == f.name,
    ensures
        sorted_frames(s.update(i, f)),
        cache_map(s.update(i, f)) == cache_map(s).insert(f.name, f),
{
    let t = s.update(i, f);
    assert forall|p: int, q: int| 0 <= p < q < t.len() implies bytes_lt(
        name_key(t[p].name),
        name_key(t[q].name),
    ) by {
        assert(t[p].name == s[p].name || (p == i && t[p].name == s[i].name));
        assert(t[q].name == s[q].name || (q == i && t[q].name == s[i].name));
    }
    assert forall|p: int, q: int| 0 <= p < q < t.len() implies t[p].name != t[q].name by {
        assert(t[p].name == s[p].name);
        assert(t[q].name == s[q].name);
    }
    assert(cache_map(t) =~= cache_map(s).insert(f.name, f)) by {
        assert forall|n: Seq<char>| #[trigger] cache_map(t).contains_key(n) implies cache_map(
            s,
        ).insert(f.name, f).contains_key(n) by {
            let w = choose|w: int| 0 <= w < t.len() && t[w].name == n;
            if n != f.name {
                assert(s[w].name == n);
            }
        }
        assert forall|n: Seq<char>| #[trigger]
            cache_map(s).insert(f.name, f).contains_key(n) implies cache_map(t).contains_key(
            n,
        ) by {
            if n == f.name {
                assert(t[i].name == n);
            } else {
                let w = choose|w: int| 0 <= w < s.len() && s[w].name == n;
                assert(t[w].name == n);
            }
        }
        assert forall|n: Seq<char>| cache_map(t).contains_key(n) implies cache_map(t)[n]
            == cache_map(s).insert(f.name, f)[n] by {
            let w = choose|w: int| 0 <= w < t.len() && t[w].name == n;
            if n == f.name {
                assert(w == i);
                assert(cache_map(t)[n] == f);
            } else {
                assert(s[w].name == n);
                lemma_cache_map_at(s, w);
                assert(cache_map(t)[n] == t[w]);
                assert(t[w] == s[w]);
            }
        }
    }
}

/// Inserting a fresh-named entry at `i`, between smaller keys below and
/// larger keys above, keeps the order and performs a map insert.
proof fn lemma_cache_insert(s: Seq<SpecFrame>, i: int, f: SpecFrame)
    requires
        sorted_frames(s),
        unique_names(s),
        0 <= i <= s.len(),
        forall|j: int| 0 <= j < i ==> bytes_lt(name_key(s[j].name), name_key(f.name)),
        forall|j: int| i <= j < s.len() ==> bytes_lt(name_key(f.name), name_key(s[j].name)),
    ensures
        sorted_frames(s.insert(i, f)),
        cache_map(s.insert(i, f)) == cache_map(s).insert(f.name, f),
{
    let t = s.insert(i, f);
    assert forall|j: int| 0 <= j < s.len() implies s[j].name != f.name by {
        if s[j].name == f.name {
            lemma_bytes_lt_irrefl(name_key(f.name));
        }
    }
    assert forall|p: int, q: int| 0 <= p < q < t.len() implies bytes_lt(
        name_key(t[p].name),
        name_key(t[q].name),
    ) by {
        assert(p < i ==> t[p] == s[p]);
        assert(p > i ==> t[p] == s[p - 1]);
        assert(q < i ==> t[q] == s[q]);
        assert(q > i ==> t[q] == s[q - 1]);
    }
    assert forall|p: int, q: int| 0 <= p < q < t.len() implies t[p].name != t[q].name by {
        if t[p].name == t[q].name {
            lemma_bytes_lt_irrefl(name_key(t[p].name));
        }
    }
    assert(cache_map(t) =~= cache_map(s).insert(f.name, f)) by {
        assert forall|n: Seq<char>| #[trigger] cache_map(t).contains_key(n) implies cache_map(
            s,
        ).insert(f.name, f).contains_key(n) by {
            let w = choose|w: int| 0 <= w < t.len() && t[w].name == n;
            if n != f.name {
                if w < i {
                    assert(s[w].name == n);
                } else {
                    assert(s[w - 1].name == n);
                }
            }
        }
        assert forall|n: Seq<char>| #[trigger]
            cache_map(s).insert(f.name, f).contains_key(n) implies cache_map(t).contains_key(
            n,
        ) by {
            if n == f.name {
                assert(t[i].name == n);
            } else {
                let w = choose|w: int| 0 <= w < s.len() && s[w].name == n;
                if w < i {
                    assert(t[w].name == n);
                } else {
                    assert(t[w + 1].name == n);
                }
            }
        }
        assert forall|n: Seq<char>| cache_map(t).contains_key(n) implies cache_map(t)[n]
            == cache_map(s).insert(f.name, f)[n] by {
            let w = choose|w: int| 0 <= w < t.len() && t[w].name == n;
            assert(cache_map(t)[n] == t[w]);
            if n == f.name {
                assert(w == i);
            } else {
                if w < i {
                    assert(s[w].name == n);
                    lemma_cache_map_at(s, w);
                } else {
                    assert(s[w - 1].name == n);
                    lemma_cache_map_at(s, w - 1);
                }
            }
        }
    }
}

/// Whether `r` is the consolidated, ordered frame set of cache contents `m`
/// under description `d`: exactly one entry per cached name, each carrying
/// the cached frame, with the reserved main name first when present and every
/// other entry in ascending key order.
pub open spec fn ordered_snapshot(
    m: Map<Seq<char>, SpecFrame>,
    d: Seq<char>,
    r: SpecFrames,
) -> bool {
    &&& r.description == d
    &&& forall|i: int|
        0 <= i < r.frames.len() ==> m.contains_key(#[trigger] r.frames[i].name)
            && m[r.frames[i].name] == r.frames[i]
    &&& forall|n: Seq<char>| #[trigger]
        m.contains_key(n) ==> exists|i: int| 0 <= i < r.frames.len() && r.frames[i].name == n
    &&& forall|i: int, j: int|
        0 <= i < j < r.frames.len() ==> r.frames[i].name != r.frames[j].name
    &&& (m.contains_key(main_name()) ==> r.frames.len() > 0 && r.frames[0].name == main_name())
    &&& forall|i: int, j: int|
        (if m.contains_key(main_name()) {
            1int
        } else {
            0int
        }) <= i < j < r.frames.len() ==> bytes_lt(
            name_key(r.frames[i].name),
            name_key(r.frames[j].name),
        )
}

impl FrameCache {
    /// Produces the consolidated view of the cache as an ordered frame set:
    /// one entry per name, the reserved main entry moved to the front when
    /// present, all others in ascending key order.
    #[verifier::loop_isolation(false)]
    #[verifier::rlimit(60)]
    pub fn snapshot(&self, description: String) -> (r: Frames)
        requires
            self.wf(),
        ensures
            ordered_snapshot(self@, description@, r@),
    {
        let ghost s0 = self.frames.deep_view();
        let ghost m = self@;
        proof {
            lemma_sorted_unique(s0);
        }
        let mut out: Vec<Frame> = Vec::new();
        let mut i: usize = 0;
        while i < self.frames.len()
            invariant
                i <= s0.len(),
                out.deep_view() =~= s0.take(i as int),
            decreases s0.len() - i,
        {
            let copy = self.frames[i].duplicate();
            out.push(copy);
            proof {
                assert(out.deep_view() =~= s0.take(i + 1));
            }
            i = i + 1;
        }
        proof {
            assert(out.deep_view() =~= s0);
        }
        let main_string: String = "Main".to_owned();
        let n = out.len();
        let mut p: usize = 0;
        while p < n && !(out[p].name == main_string)
            invariant
                p <= n,
                n == s0.len(),
                out.deep_view() == s0,
                forall|j: int| 0 <= j < p ==> s0[j].name != main_name(),
            decreases n - p,
        {
            p = p + 1;
        }
        if p < n {
            let f = out.remove(p);
            out.insert(0, f);
            let ghost t = out.deep_view();
            let r = Frames { description, frames: out };
            proof {
                assert(t =~= s0.remove(p as int).insert(0, s0[p as int]));
                assert(s0[p as int].name == main_name());
                assert(m.contains_key(main_name()));
                assert forall|k: int| 0 <= k < t.len() implies m.contains_key(
                    #[trigger] t[k].name,
                ) && m[t[k].name] == t[k] by {
                    if k == 0 {
                        lemma_cache_map_at(s0, p as int);
                    } else if k <= p {
                        lemma_cache_map_at(s0, k - 1);
                        assert(t[k] == s0[k - 1]);
                    } else {
                        lemma_cache_map_at(s0, k);
                        assert(t[k] == s0[k]);
                    }
                }
                assert forall|nm: Seq<char>| #[trigger] m.contains_key(nm) implies exists|k: int|
                    0 <= k < t.len() && t[k].name == nm by {
                    let w = choose|w: int| 0 <= w < s0.len() && s0[w].name == nm;
                    if w == p {
                        assert(t[0].name == nm);
                    } else if w < p {
                        assert(t[w + 1].name == nm);
                    } else {
                        assert(t[w].name == nm);
                    }
                }
                assert forall|a: int, b: int| 0 <= a < b < t.len() implies t[a].name
                    != t[b].name by {
                    let sa = if a == 0 { p as int } else if a <= p { a - 1 } else { a };
                    let sb = if b <= p { b - 1 } else { b };
                    assert(t[a] == s0[sa]);
                    assert(t[b] == s0[sb]);
                    assert(sa != sb);
                }
                assert forall|a: int, b: int| 1 <= a < b < t.len() implies bytes_lt(
                    name_key(t[a].name),
                    name_key(t[b].name),
                ) by {
                    let sa = if a <= p { a - 1 } else { a };
                    let sb = if b <= p { b - 1 } else { b };
                    assert(t[a] == s0[sa]);
                    assert(t[b] == s0[sb]);
                    assert(0 <= sa < sb < s0.len());
                }
                assert(r@.frames == t);
                assert(forall|k: int|
                    0 <= k < r@.frames.len() ==> m.contains_key(#[trigger] r@.frames[k].name)
                        && m[r@.frames[k].name] == r@.frames[k]);
                assert(forall|nm: Seq<char>| #[trigger]
                    m.contains_key(nm) ==> exists|k: int|
                        0 <= k < r@.frames.len() && r@.frames[k].name == nm);
                assert(forall|a: int, b: int|
                    0 <= a < b < r@.frames.len() ==> r@.frames[a].name != r@.frames[b].name);
                assert(r@.frames[0].name == main_name());
                assert(forall|a: int, b: int|
                    1 <= a < b < r@.frames.len() ==> bytes_lt(
                        name_key(r@.frames[a].name),
                        name_key(r@.frames[b].name),
                    ));
                assert(ordered_snapshot(m, description@, r@));
            }
            r
        } else {
            let r = Frames { description, frames: out };
            proof {
                if m.contains_key(main_name()) {
                    let w = choose|w: int| 0 <= w < s0.len() && s0[w].name == main_name();
                    assert(s0[w].name != main_name());
                }
                assert forall|k: int| 0 <= k < s0.len() implies m.contains_key(
                    #[trigger] s0[k].name,
                ) && m[s0[k].name] == s0[k] by {
                    lemma_cache_map_at(s0, k);
                }
                assert(r@.frames == s0);
                assert(!m.contains_key(main_name()));
                assert(forall|k: int|
                    0 <= k < r@.frames.len() ==> m.contains_key(#[trigger] r@.frames[k].name)
                        && m[r@.frames[k].name] == r@.frames[k]);
                assert(forall|nm: Seq<char>| #[trigger]
                    m.contains_key(nm) ==> exists|k: int|
                        0 <= k < r@.frames.len() && r@.frames[k].name == nm);
                assert(forall|a: int, b: int|
                    0 <= a < b < r@.frames.len() ==> r@.frames[a].name != r@.frames[b].name);
                assert(forall|a: int, b: int|
                    0 <= a < b < r@.frames.len() ==> bytes_lt(
                        name_key(r@.frames[a].name),
                        name_key(r@.frames[b].name),
                    ));
                assert(ordered_snapshot(m, description@, r@));
            }
            r
        }
    }
}

/// One event delivered to the consumer: a new consolidated frame set, or the
/// single terminal signal that ends the stream.
#[derive(Debug)]
pub enum Message {
    NewFrames(Frames),
    VideoFinished,
}

/// The single slot of the bounded, capacity-one frame channel: it holds at
/// most one pending message until the consumer drains it.
pub struct FrameChannel {
    slot: Option<Message>,
}

impl FrameChannel {
    /// The message waiting to be drained, if any.
    pub closed spec fn pending(&self) -> Option<Message> {
        self.slot
    }

    /// An empty channel slot.
    pub fn new() -> (c: FrameChannel)
        ensures
            c.pending() is None,
    {
        FrameChannel { slot: None }
    }

    /// Offers a message to the slot. It is accepted only when the slot is
    /// empty; against an occupied slot the offer is refused and handed back,
    /// and the pending message is neither overwritten nor dropped — the
    /// sender must wait for the consumer to drain and try again.
    pub fn try_send(&mut self, message: Message) -> (refused: Option<Message>)
        ensures
            old(self).pending() is None ==> refused is None && final(self).pending() == Some(
                message,
            ),
            old(self).pending() is Some ==> refused == Some(message) && final(self).pending()
                == old(self).pending(),
    {
        match &self.slot {
            Option::Some(_) => Some(message),
            Option::None => {
                self.slot = Some(message);
                None
            },
        }
    }

    /// Takes the pending message, leaving the slot free.
    pub fn drain(&mut self) -> (r: Option<Message>)
        ensures
            r == old(self).pending(),
            final(self).pending() is None,
    {
        self.slot.take()
    }
}

/// What one poll cycle delivered: a fresh snapshot tagged with its version, a
/// wake without new data, the collaborator's stop signal, or the loss of the
/// consumer.
#[derive(Debug)]
pub enum ProducerEvent {
    Snapshot { version: u64, bytes: Vec<u8> },
    Wake,
    Stop,
    ConsumerGone,
}

/// What the loop around the producer must do next: poll again, emit a frame
/// set, emit the single terminal message, or halt.
#[derive(Debug)]
pub enum ProducerAction {
    Poll,
    Emit(Frames),
    EmitTerminal,
    Halt,
}

/// The shape of a producer event, stripped of its payload.
pub ghost enum EventClass {
    Snapshot,
    Wake,
    Stop,
    ConsumerGone,
}

/// The shape of a producer action, stripped of its payload.
pub ghost enum ActionClass {
    Poll,
    Emit,
    Terminal,
    Halt,
}

pub open spec fn event_class(e: ProducerEvent) -> EventClass {
    match e {
        ProducerEvent::Snapshot { .. } => EventClass::Snapshot,
        ProducerEvent::Wake => EventClass::Wake,
        ProducerEvent::Stop => EventClass::Stop,
        ProducerEvent::ConsumerGone => EventClass::ConsumerGone,
    }
}

pub open spec fn action_class(a: ProducerAction) -> ActionClass {
    match a {
        ProducerAction::Poll => ActionClass::Poll,
        ProducerAction::Emit(..) => ActionClass::Emit,
        ProducerAction::EmitTerminal => ActionClass::Terminal,
        ProducerAction::Halt => ActionClass::Halt,
    }
}

/// Whether the producer is still running after it sees `e` while in phase
/// `running`: only a stop signal or the loss of the consumer ends the run.
pub open spec fn next_running(running: bool, e: EventClass) -> bool {
    running && !(e is Stop) && !(e is ConsumerGone)
}

/// The action owed for event `e` in phase `running`: nothing once stopped,
/// otherwise an emission for a snapshot, another poll for a spurious wake,
/// and the terminal message for either way of stopping.
pub open spec fn step_action(running: bool, e: EventClass) -> ActionClass {
    if !running {
        ActionClass::Halt
    } else {
        match e {
            EventClass::Snapshot => ActionClass::Emit,
            EventClass::Wake => ActionClass::Poll,
            EventClass::Stop => ActionClass::Terminal,
            EventClass::ConsumerGone => ActionClass::Terminal,
        }
    }
}

/// The actions of a whole run over `events`, one per event, starting in
/// phase `running`.
pub open spec fn run_actions(running: bool, events: Seq<EventClass>) -> Seq<ActionClass>
    decreases events.len(),
{
    if events.len() == 0 {
        Seq::empty()
    } else {
        seq![step_action(running, events[0])] + run_actions(
            next_running(running, events[0]),
            events.drop_first(),
        )
    }
}

/// How many terminal actions a run performs.
pub open spec fn count_terminals(acts: Seq<ActionClass>) -> int
    decreases acts.len(),
{
    if acts.len() == 0 {
        0
    } else {
        (if acts[0] is Terminal {
            1int
        } else {
            0int
        }) + count_terminals(acts.drop_first())
    }
}

/// Whether some event of the run ends the producer.
pub open spec fn has_halting_event(events: Seq<EventClass>) -> bool {
    exists|i: int| 0 <= i < events.len() && (events[i] is Stop || events[i] is ConsumerGone)
}

proof fn lemma_halted_run(events: Seq<EventClass>)
    ensures
        run_actions(false, events).len() == events.len(),
        forall|i: int| 0 <= i < events.len() ==> run_actions(false, events)[i] is Halt,
        count_terminals(run_actions(false, events)) == 0,
    decreases events.len(),
{
    if events.len() > 0 {
        lemma_halted_run(events.drop_first());
        assert(run_actions(false, events).drop_first() =~= run_actions(
            false,
            events.drop_first(),
        ));
    }
}

/// Once the collaborator signals stop (or the consumer is lost), the run
/// performs the terminal emission exactly once, and after the terminal
/// action every further action is a halt — no frame set follows it.
pub proof fn lemma_single_terminal(events: Seq<EventClass>)
    ensures
        count_terminals(run_actions(true, events)) <= 1,
        has_halting_event(events) ==> count_terminals(run_actions(true, events)) == 1,
        forall|i: int, j: int|
            0 <= i < j < run_actions(true, events).len() && run_actions(true, events)[i]
                is Terminal ==> run_actions(true, events)[j] is Halt,
    decreases events.len(),
{
    let acts = run_actions(true, events);
    if events.len() > 0 {
        let e0 = events[0];
        let rest = events.drop_first();
        if e0 is Stop || e0 is ConsumerGone {
            lemma_halted_run(rest);
            assert(acts.drop_first() =~= run_actions(false, rest));
            assert(count_terminals(acts) == 1 + count_terminals(run_actions(false, rest)));
            assert forall|i: int, j: int|
                0 <= i < j < acts.len() && acts[i] is Terminal implies acts[j] is Halt by {
                assert(acts[j] == run_actions(false, rest)[j - 1]);
            }
        } else {
            lemma_single_terminal(rest);
            assert(acts.drop_first() =~= run_actions(true, rest));
            assert(count_terminals(acts) == count_terminals(run_actions(true, rest)));
            if has_halting_event(events) {
                let w = choose|w: int|
                    0 <= w < events.len() && (events[w] is Stop || events[w] is ConsumerGone);
                assert(rest[w - 1] is Stop || rest[w - 1] is ConsumerGone);
                assert(has_halting_event(rest));
            }
            assert forall|i: int, j: int|
                0 <= i < j < acts.len() && acts[i] is Terminal implies acts[j] is Halt by {
                assert(i > 0);
                assert(acts[i] == run_actions(true, rest)[i - 1]);
                assert(acts[j] == run_actions(true, rest)[j - 1]);
            }
        }
    }
}

/// Whether one raw frame is accepted for display: a payload of exactly the
/// size its header declares, in a channel depth the normalizer supports.
pub open spec fn accepts(f: SpecImage) -> bool {
    &&& f.pixels.len() == (f.width as nat) * (f.height as nat) * (f.channels as nat)
    &&& spec_normalize(f.channels, f.pixels) is Some
}

/// The decoded frame an accepted raw frame becomes.
pub open spec fn normalized_frame(f: SpecImage) -> SpecFrame
    recommends
        accepts(f),
{
    SpecFrame {
        name: f.name,
        width: f.width,
        height: f.height,
        rgba: spec_normalize(f.channels, f.pixels)->0,
    }
}

/// The cache contents after one cycle's raw frames are merged in order: each
/// accepted frame replaces its name's entry, rejected frames are skipped,
/// and nothing else changes.
pub open spec fn merge_cycle(
    m: Map<Seq<char>, SpecFrame>,
    frames: Seq<SpecImage>,
) -> Map<Seq<char>, SpecFrame>
    decreases frames.len(),
{
    if frames.len() == 0 {
        m
    } else {
        let m2 = if accepts(frames[0]) {
            m.insert(frames[0].name, normalized_frame(frames[0]))
        } else {
            m
        };
        merge_cycle(m2, frames.drop_first())
    }
}

proof fn lemma_merge_cycle_snoc(m: Map<Seq<char>, SpecFrame>, frames: Seq<SpecImage>, i: int)
    requires
        0 <= i < frames.len(),
    ensures
        merge_cycle(m, frames.take(i + 1)) == (if accepts(frames[i]) {
            merge_cycle(m, frames.take(i)).insert(frames[i].name, normalized_frame(frames[i]))
        } else {
            merge_cycle(m, frames.take(i))
        }),
    decreases i,
{
    let m2 = if accepts(frames[0]) {
        m.insert(frames[0].name, normalized_frame(frames[0]))
    } else {
        m
    };
    if i == 0 {
        assert(frames.take(1).drop_first() =~= Seq::<SpecImage>::empty());
        assert(frames.take(0) =~= Seq::<SpecImage>::empty());
        assert(frames.take(1)[0] == frames[0]);
        assert(merge_cycle(m2, Seq::<SpecImage>::empty()) == m2);
        assert(merge_cycle(m, frames.take(1)) == m2);
        assert(merge_cycle(m, frames.take(0)) == m);
    } else {
        lemma_merge_cycle_snoc(m2, frames.drop_first(), i - 1);
        assert(frames.take(i + 1).drop_first() =~= frames.drop_first().take(i));
        assert(frames.take(i).drop_first() =~= frames.drop_first().take(i - 1));
        assert(frames.take(i + 1)[0] == frames[0]);
        assert(frames.take(i)[0] == frames[0]);
        assert(frames.drop_first()[i - 1] == frames[i]);
        assert(merge_cycle(m, frames.take(i + 1)) == merge_cycle(m2, frames.drop_first().take(i)));
        assert(merge_cycle(m, frames.take(i)) == merge_cycle(m2, frames.drop_first().take(i - 1)));
    }
}

/// Validates and normalizes one raw frame: rejected (with no other effect)
/// when its payload does not match the declared size or its channel depth is
/// unsupported.
fn build_frame(name: &String, width: u32, height: u32, channels: u32, data: &[u8]) -> (r: Option<
    Frame,
>)
    ensures
        ({
            let img = SpecImage { name: name@, width, height, channels, pixels: data@ };
            &&& (r matches Some(fr) ==> fr@ == normalized_frame(img))
            &&& (r is Some <==> accepts(img))
        }),
{
    proof {
        assert((width as int) * (height as int) < 0x10000000000000000int) by (nonlinear_arith)
            requires
                width < 0x100000000int,
                height < 0x100000000int,
        ;
        assert(((width as int) * (height as int)) * (channels as int)
            < 0x1000000000000000000000000int) by (nonlinear_arith)
            requires
                (width as int) * (height as int) < 0x10000000000000000int,
                0 <= (width as int) * (height as int),
                channels < 0x100000000int,
        ;
    }
    let expected: u128 = (width as u128) * (height as u128) * (channels as u128);
    if (data.len() as u128) != expected {
        return None;
    }
    match normalize_frame(channels, data) {
        Some(rgba) => Some(Frame { name: name.clone(), width, height, rgba }),
        None => None,
    }
}

/// The stream producer: the frame cache it accumulates into, the last
/// version it observed, and whether its polling loop is still running.
pub struct StreamProducer {
    cache: FrameCache,
    last_version: u64,
    running: bool,
}

impl StreamProducer {
    /// The producer's internal invariant.
    pub closed spec fn inv(&self) -> bool {
        self.cache.wf()
    }

    /// The cached last-known frame per name.
    pub closed spec fn cache_view(&self) -> Map<Seq<char>, SpecFrame> {
        self.cache@
    }

    /// Whether the polling loop is still running.
    pub closed spec fn running(&self) -> bool {
        self.running
    }

    /// The last snapshot version observed.
    pub closed spec fn last_version(&self) -> u64 {
        self.last_version
    }

    /// A fresh producer: running, with an empty cache, before any version.
    pub fn new() -> (p: StreamProducer)
        ensures
            p.inv(),
            p.running(),
            p.cache_view() == Map::<Seq<char>, SpecFrame>::empty(),
            p.last_version() == 0,
    {
        StreamProducer { cache: FrameCache::new(), last_version: 0, running: true }
    }

    /// Merges one cycle's raw frames into the cache — each accepted frame
    /// replacing its name's entry, size-mismatched or unsupported-depth
    /// frames skipped — and returns the consolidated, ordered frame set
    /// under the cycle's description.
    #[verifier::loop_isolation(false)]
    pub fn send_frames(&mut self, description: String, raw_frames: &Vec<RawFrame>) -> (r: Frames)
        requires
            old(self).inv(),
        ensures
            final(self).inv(),
            final(self).running() == old(self).running(),
            final(self).last_version() == old(self).last_version(),
            final(self).cache_view() == merge_cycle(
                old(self).cache_view(),
                raw_frames.deep_view(),
            ),
            ordered_snapshot(final(self).cache_view(), description@, r@),
    {
        let ghost m0 = self.cache@;
        let ghost dv = raw_frames.deep_view();
        proof {
            assert(dv.take(0) =~= Seq::<SpecImage>::empty());
        }
        let mut i: usize = 0;
        while i < raw_frames.len()
            invariant
                i <= dv.len(),
                self.cache.wf(),
                self.cache@ == merge_cycle(m0, dv.take(i as int)),
                self.last_version == old(self).last_version,
                self.running == old(self).running,
            decreases dv.len() - i,
        {
            let rf = &raw_frames[i];
            match build_frame(&rf.name, rf.width, rf.height, rf.channels, rf.bytes.as_slice()) {
                Some(frame) => {
                    proof {
                        assert(accepts(dv[i as int]));
                        assert(frame@ == normalized_frame(dv[i as int]));
                    }
                    self.cache.merge(frame);
                },
                None => {
                    proof {
                        assert(!accepts(dv[i as int]));
                    }
                },
            }
            proof {
                lemma_merge_cycle_snoc(m0, dv, i as int);
            }
            i = i + 1;
        }
        proof {
            assert(dv.take(dv.len() as int) =~= dv);
        }
        self.cache.snapshot(description)
    }

    /// Advances the producer by one event of its polling loop. A snapshot is
    /// decoded, its frames merged, and the consolidated frame set returned
    /// for emission; a spurious wake asks for another poll; the stop signal
    /// and the loss of the consumer each end the run with the single
    /// terminal emission; once stopped, every event is answered with a halt
    /// and changes nothing.
    pub fn step(&mut self, event: &ProducerEvent) -> (action: ProducerAction)
        requires
            old(self).inv(),
            old(self).running() ==> (*event matches ProducerEvent::Snapshot { version, .. }
                ==> version > old(self).last_version()),
        ensures
            final(self).inv(),
            action_class(action) == step_action(old(self).running(), event_class(*event)),
            final(self).running() == next_running(old(self).running(), event_class(*event)),
            !old(self).running() ==> final(self).cache_view() == old(self).cache_view()
                && final(self).last_version() == old(self).last_version(),
            old(self).running() ==> (*event matches ProducerEvent::Snapshot { version, bytes }
                ==> ({
                &&& final(self).cache_view() == merge_cycle(
                    old(self).cache_view(),
                    spec_snapshot_records(bytes@),
                )
                &&& final(self).last_version() == version
                &&& (action matches ProducerAction::Emit(fr) && ordered_snapshot(
                    final(self).cache_view(),
                    spec_snapshot_description(bytes@),
                    fr@,
                ))
            })),
            old(self).running() && !(*event matches ProducerEvent::Snapshot { .. })
                ==> final(self).cache_view() == old(self).cache_view()
                && final(self).last_version() == old(self).last_version(),
    {
        if !self.running {
            return ProducerAction::Halt;
        }
        match event {
            ProducerEvent::Snapshot { version, bytes } => {
                let (description, images) = decode_snapshot(bytes.as_slice());
                let frames = merge_decoded(&mut self.cache, &images, description);
                self.last_version = *version;
                ProducerAction::Emit(frames)
            },
            ProducerEvent::Wake => ProducerAction::Poll,
            ProducerEvent::Stop => {
                self.running = false;
                ProducerAction::EmitTerminal
            },
            ProducerEvent::ConsumerGone => {
                self.running = false;
                ProducerAction::EmitTerminal
            },
        }
    }
}

/// Merges one cycle's decoded records into the cache and takes the ordered
/// snapshot under the cycle's description.
#[verifier::loop_isolation(false)]
fn merge_decoded<'a>(
    cache: &mut FrameCache,
    images: &Vec<NamedImageView<'a>>,
    description: String,
) -> (r: Frames)
    requires
        old(cache).wf(),
    ensures
        final(cache).wf(),
        final(cache)@ == merge_cycle(old(cache)@, images.deep_view()),
        ordered_snapshot(final(cache)@, description@, r@),
{
    let ghost m0 = cache@;
    let ghost dv = images.deep_view();
    proof {
        assert(dv.take(0) =~= Seq::<SpecImage>::empty());
    }
    let mut i: usize = 0;
    while i < images.len()
        invariant
            i <= dv.len(),
            cache.wf(),
            cache@ == merge_cycle(m0, dv.take(i as int)),
        decreases dv.len() - i,
    {
        let im = &images[i];
        match build_frame(&im.name, im.width, im.height, im.channels, im.pixels) {
            Some(frame) => {
                proof {
                    assert(accepts(dv[i as int]));
                    assert(frame@ == normalized_frame(dv[i as int]));
                }
                cache.merge(frame);
            },
            None => {
                proof {
                    assert(!accepts(dv[i as int]));
                }
            },
        }
        proof {
            lemma_merge_cycle_snoc(m0, dv, i as int);
        }
        i = i + 1;
    }
    proof {
        assert(dv.take(dv.len() as int) =~= dv);
    }
    cache.snapshot(description)
}

} // verus!
