//! The hash manifest: the per-store map from file path to content hash that
//! makes indexing incremental. Modelled as a map from path bytes to hash
//! bytes; held as an association list with unique paths.

use vstd::prelude::*;
use crate::bytes::bytes_eq;

verus! {

/// One manifest row.
pub struct ManifestEntry {
    pub path: Vec<u8>,
    pub hash: Vec<u8>,
}

/// The manifest: each indexed file's path and the hash its records carry.
pub struct Manifest {
    entries: Vec<ManifestEntry>,
}

/// The map an entry list stands for; later entries win.
pub open spec fn entries_map(s: Seq<ManifestEntry>) -> Map<Seq<u8>, Seq<u8>>
    decreases s.len(),
{
    if s.len() == 0 {
        Map::empty()
    } else {
        entries_map(s.drop_last()).insert(s.last().path@, s.last().hash@)
    }
}

/// No path occurs twice.
pub open spec fn entries_unique(s: Seq<ManifestEntry>) -> bool {
    forall|i: int, j: int|
        0 <= i < j < s.len() ==> (#[trigger] s[i]).path@ != (#[trigger] s[j]).path@
}

/// An entry's path is in the map, at the entry's hash, when paths are
/// unique.
proof fn lemma_entries_map_at(s: Seq<ManifestEntry>, i: int)
    requires
        entries_unique(s),
        0 <= i < s.len(),
    ensures
        entries_map(s).contains_key(s[i].path@),
        entries_map(s)[s[i].path@] == s[i].hash@,
    decreases s.len(),
{
    if i < s.len() - 1 {
        assert(entries_unique(s.drop_last())) by {
            assert(forall|p: int, q: int|
                0 <= p < q < s.drop_last().len() ==> s.drop_last()[p] == s[p]
                    && s.drop_last()[q] == s[q]);
        }
        assert(s.drop_last()[i] == s[i]);
        lemma_entries_map_at(s.drop_last(), i);
        assert(s[i].path@ != s[s.len() - 1].path@);
    }
}

/// A path on no entry is not in the map.
proof fn lemma_entries_map_absent(s: Seq<ManifestEntry>, p: Seq<u8>)
    requires
        forall|i: int| 0 <= i < s.len() ==> (#[trigger] s[i]).path@ != p,
    ensures
        !entries_map(s).contains_key(p),
    decreases s.len(),
{
    if s.len() > 0 {
        assert(forall|i: int|
            0 <= i < s.drop_last().len() ==> (#[trigger] s.drop_last()[i]).path@ != p && s
                .drop_last()[i] == s[i]);
        lemma_entries_map_absent(s.drop_last(), p);
    }
}

/// Pushing an entry inserts its pair.
proof fn lemma_entries_map_push(s: Seq<ManifestEntry>, e: ManifestEntry)
    ensures
        entries_map(s.push(e)) == entries_map(s).insert(e.path@, e.hash@),
{
    assert(s.push(e).drop_last() =~= s);
    assert(s.push(e).last() == e);
}

/// Removing the only entry with a path removes the path from the map.
proof fn lemma_entries_map_remove(s: Seq<ManifestEntry>, i: int)
    requires
        entries_unique(s),
        0 <= i < s.len(),
    ensures
        entries_map(s.remove(i)) == entries_map(s).remove(s[i].path@),
    decreases s.len(),
{
    let p = s[i].path@;
    if i == s.len() - 1 {
        assert(s.remove(i) =~= s.drop_last());
        assert(forall|t: int|
            0 <= t < s.drop_last().len() ==> (#[trigger] s.drop_last()[t]).path@ != p && s
                .drop_last()[t] == s[t]);
        lemma_entries_map_absent(s.drop_last(), p);
        assert(entries_map(s.drop_last()).insert(p, s[i].hash@).remove(p) =~= entries_map(
            s.drop_last(),
        ));
    } else {
        let e = s.last();
        let s2 = s.drop_last();
        assert(entries_unique(s2)) by {
            assert(forall|a: int, b: int|
                0 <= a < b < s2.len() ==> s2[a] == s[a] && s2[b] == s[b]);
        }
        assert(s2[i] == s[i]);
        lemma_entries_map_remove(s2, i);
        assert(s.remove(i) =~= s2.remove(i).push(e));
        lemma_entries_map_push(s2.remove(i), e);
        assert(p != e.path@);
        assert(entries_map(s2).remove(p).insert(e.path@, e.hash@) =~= entries_map(s2).insert(
            e.path@,
            e.hash@,
        ).remove(p));
    }
}

impl Manifest {
    /// The map the manifest stands for.
    pub closed spec fn view(&self) -> Map<Seq<u8>, Seq<u8>> {
        entries_map(self.entries@)
    }

    /// Paths are unique; the invariant every method keeps.
    pub closed spec fn wf(&self) -> bool {
        entries_unique(self.entries@)
    }

    /// An empty manifest.
    pub fn new() -> (r: Manifest)
        ensures
            r.wf(),
            r.view() == Map::<Seq<u8>, Seq<u8>>::empty(),
    {
        let r = Manifest { entries: Vec::new() };
        proof {
            assert(r.view() =~= Map::<Seq<u8>, Seq<u8>>::empty());
        }
        r
    }

    /// How many files the manifest lists.
    pub fn len(&self) -> (r: usize)
        requires
            self.wf(),
        ensures
            r == self.view().dom().len(),
    {
        proof {
            lemma_entries_dom_len(self.entries@);
        }
        self.entries.len()
    }

    /// The entry at position `i`, for walking the manifest when it is
    /// persisted: a listed pair, present in the map at exactly this hash.
    pub fn entry_at(&self, i: usize) -> (r: &ManifestEntry)
        requires
            self.wf(),
            i < self.view().dom().len(),
        ensures
            self.view().contains_key(r.path@),
            self.view()[r.path@] == r.hash@,
    {
        proof {
            lemma_entries_dom_len(self.entries@);
            lemma_entries_map_at(self.entries@, i as int);
        }
        &self.entries[i]
    }

    /// Index of the entry with this path, if one exists.
    fn find(&self, path: &[u8]) -> (r: Option<usize>)
        ensures
            match r {
                Some(i) => i < self.entries@.len() && self.entries@[i as int].path@ == path@,
                None => forall|i: int|
                    0 <= i < self.entries@.len() ==> (#[trigger] self.entries@[i]).path@
                        != path@,
            },
    {
        let mut i: usize = 0;
        while i < self.entries.len()
            invariant
                0 <= i <= self.entries@.len(),
                forall|t: int|
                    0 <= t < i ==> (#[trigger] self.entries@[t]).path@ != path@,
            decreases self.entries@.len() - i,
        {
            if bytes_eq(self.entries[i].path.as_slice(), path) {
                return Some(i);
            }
            i += 1;
        }
        None
    }

    /// The hash recorded for a path, or `None` when the path is not listed.
    pub fn get_hash(&self, path: &[u8]) -> (r: Option<Vec<u8>>)
        requires
            self.wf(),
        ensures
            match r {
                Some(h) => self.view().contains_key(path@) && self.view()[path@] == h@,
                None => !self.view().contains_key(path@),
            },
    {
        match self.find(path) {
            Some(i) => {
                proof {
                    lemma_entries_map_at(self.entries@, i as int);
                }
                Some(crate::bytes::sub_vec(
                    self.entries[i].hash.as_slice(),
                    0,
                    self.entries[i].hash.len(),
                ))
            },
            None => {
                proof {
                    lemma_entries_map_absent(self.entries@, path@);
                }
                None
            },
        }
    }

    /// Records `hash` for `path`, replacing any earlier hash.
    pub fn set_hash(&mut self, path: Vec<u8>, hash: Vec<u8>)
        requires
            old(self).wf(),
        ensures
            final(self).wf(),
            final(self).view() == old(self).view().insert(path@, hash@),
    {
        let ghost pre = self.entries@;
        match self.find(path.as_slice()) {
            Some(i) => {
                proof {
                    lemma_entries_map_remove(self.entries@, i as int);
                }
                let _ = self.entries.remove(i);
                proof {
                    assert(entries_unique(self.entries@)) by {
                        assert(forall|a: int, b: int|
                            0 <= a < b < self.entries@.len() ==> (exists|a0: int|
                                0 <= a0 < pre.len() && pre[a0] == #[trigger] self.entries@[a])
                                && (exists|b0: int|
                                0 <= b0 < pre.len() && pre[b0] == #[trigger] self.entries@[
                                    b
                                ]));
                        assert forall|a: int, b: int| 0 <= a < b < self.entries@.len() implies (
                        #[trigger] self.entries@[a]).path@ != (
                        #[trigger] self.entries@[b]).path@ by {
                            let a0 = if a < i {
                                a
                            } else {
                                a + 1
                            };
                            let b0 = if b < i {
                                b
                            } else {
                                b + 1
                            };
                            assert(self.entries@[a] == pre[a0]);
                            assert(self.entries@[b] == pre[b0]);
                        }
                    }
                    assert(!entries_map(self.entries@).contains_key(path@)) by {
                        assert(entries_map(self.entries@) == entries_map(pre).remove(
                            pre[i as int].path@,
                        ));
                    }
                }
            },
            None => {
            },
        }
        let ghost mid = self.entries@;
        self.entries.push(ManifestEntry { path, hash });
        proof {
            lemma_entries_map_push(mid, self.entries@.last());
            assert(final(self).view() =~= old(self).view().insert(
                self.entries@.last().path@,
                self.entries@.last().hash@,
            ));
            assert(entries_unique(self.entries@)) by {
                assert forall|a: int, b: int| 0 <= a < b < self.entries@.len() implies (
                #[trigger] self.entries@[a]).path@ != (#[trigger] self.entries@[b]).path@ by {
                    if b == self.entries@.len() - 1 {
                        assert(self.entries@[a] == mid[a]);
                        if exists|t: int|
                            0 <= t < mid.len() && (#[trigger] mid[t]).path@
                                == self.entries@[b].path@ {
                            let t = choose|t: int|
                                0 <= t < mid.len() && (#[trigger] mid[t]).path@
                                    == self.entries@[b].path@;
                            lemma_entries_map_at(mid, t);
                        }
                    } else {
                        assert(self.entries@[a] == mid[a]);
                        assert(self.entries@[b] == mid[b]);
                    }
                }
            }
        }
    }

    /// Drops the entry for `path`, if any.
    pub fn remove(&mut self, path: &[u8])
        requires
            old(self).wf(),
        ensures
            final(self).wf(),
            final(self).view() == old(self).view().remove(path@),
    {
        let ghost pre = self.entries@;
        match self.find(path) {
            Some(i) => {
                proof {
                    lemma_entries_map_remove(self.entries@, i as int);
                }
                let _ = self.entries.remove(i);
                proof {
                    assert forall|a: int, b: int| 0 <= a < b < self.entries@.len() implies (
                    #[trigger] self.entries@[a]).path@ != (
                    #[trigger] self.entries@[b]).path@ by {
                        let a0 = if a < i {
                            a
                        } else {
                            a + 1
                        };
                        let b0 = if b < i {
                            b
                        } else {
                            b + 1
                        };
                        assert(self.entries@[a] == pre[a0]);
                        assert(self.entries@[b] == pre[b0]);
                    }
                }
            },
            None => {
                proof {
                    lemma_entries_map_absent(self.entries@, path@);
                    assert(old(self).view().remove(path@) =~= old(self).view());
                }
            },
        }
    }
}

/// One byte of a path or hash, escaped for the blob: quote and backslash
/// escaped, control bytes as `\u00XX`, everything else itself.
pub open spec fn spec_escape_byte(b: u8) -> Seq<u8> {
    if b == 34 {
        seq![92u8, 34u8]
    } else if b == 92 {
        seq![92u8, 92u8]
    } else if b < 32 {
        seq![92u8, 117u8, 48u8, 48u8, crate::bytes::spec_hex_digit(b / 16),
            crate::bytes::spec_hex_digit(b % 16)]
    } else {
        seq![b]
    }
}

/// A byte string escaped for the blob.
pub open spec fn spec_escape(s: Seq<u8>) -> Seq<u8>
    decreases s.len(),
{
    if s.len() == 0 {
        Seq::empty()
    } else {
        spec_escape_byte(s[0]) + spec_escape(s.skip(1))
    }
}

/// One entry of the blob: `"path":"hash"`.
pub open spec fn spec_render_entry(e: ManifestEntry) -> Seq<u8> {
    seq![34u8] + spec_escape(e.path@) + seq![34u8, 58u8, 34u8] + spec_escape(e.hash@) + seq![
        34u8,
    ]
}

/// The entries from `i` on, comma-separated; a comma leads every entry but
/// the first.
pub open spec fn spec_render_entries(s: Seq<ManifestEntry>, i: int) -> Seq<u8>
    decreases s.len() - i,
{
    if i < 0 || i >= s.len() {
        Seq::empty()
    } else {
        (if i > 0 {
            seq![44u8]
        } else {
            Seq::empty()
        }) + spec_render_entry(s[i]) + spec_render_entries(s, i + 1)
    }
}

/// The whole persisted blob: `{"files":{...}}`.
pub open spec fn spec_render_manifest(s: Seq<ManifestEntry>) -> Seq<u8> {
    seq![123u8, 34u8, 102u8, 105u8, 108u8, 101u8, 115u8, 34u8, 58u8, 123u8]
        + spec_render_entries(s, 0) + seq![125u8, 125u8]
}

/// Appends `s`, escaped, to `out`.
fn push_escaped(out: &mut Vec<u8>, s: &[u8])
    ensures
        final(out)@ == old(out)@ + spec_escape(s@),
{
    let mut i: usize = 0;
    proof {
        assert(s@.skip(0) =~= s@);
        assert(old(out)@ + Seq::<u8>::empty() =~= old(out)@);
    }
    while i < s.len()
        invariant
            0 <= i <= s@.len(),
            old(out)@ + spec_escape(s@) == out@ + spec_escape(s@.skip(i as int)),
        decreases s@.len() - i,
    {
        let b = s[i];
        let ghost pre = out@;
        proof {
            let t = s@.skip(i as int);
            assert(t[0] == s@[i as int]);
            assert(t.skip(1) =~= s@.skip(i + 1));
            assert(spec_escape(t) == spec_escape_byte(b) + spec_escape(s@.skip(i + 1)));
        }
        if b == 34 {
            out.push(92);
            out.push(34);
            proof {
                assert(out@ =~= pre + spec_escape_byte(b));
            }
        } else if b == 92 {
            out.push(92);
            out.push(92);
            proof {
                assert(out@ =~= pre + spec_escape_byte(b));
            }
        } else if b < 32 {
            let hi = b / 16;
            let lo = b % 16;
            out.push(92);
            out.push(117);
            out.push(48);
            out.push(48);
            out.push(if hi < 10 {
                48 + hi
            } else {
                87 + hi
            });
            out.push(if lo < 10 {
                48 + lo
            } else {
                87 + lo
            });
            proof {
                assert(out@ =~= pre + spec_escape_byte(b));
            }
        } else {
            out.push(b);
            proof {
                assert(out@ =~= pre + spec_escape_byte(b));
            }
        }
        proof {
            assert(pre + spec_escape(s@.skip(i as int)) =~= out@ + spec_escape(s@.skip(i + 1)));
        }
        i += 1;
    }
    proof {
        assert(spec_escape(s@.skip(s@.len() as int)) =~= Seq::<u8>::empty());
        assert(out@ + Seq::<u8>::empty() =~= out@);
    }
}

impl Manifest {
    /// Renders the manifest as its persisted blob, ready for an atomic
    /// write: `{"files":{"path":"hash",...}}`, with quotes, backslashes and
    /// control bytes escaped.
    #[verifier::rlimit(100)]
    pub fn render(&self) -> (r: Vec<u8>)
        ensures
            r@ == spec_render_manifest(self.spec_entries()),
    {
        let mut out: Vec<u8> = Vec::new();
        out.push(123);
        out.push(34);
        out.push(102);
        out.push(105);
        out.push(108);
        out.push(101);
        out.push(115);
        out.push(34);
        out.push(58);
        out.push(123);
        let ghost header = out@;
        proof {
            assert(header =~= seq![123u8, 34u8, 102u8, 105u8, 108u8, 101u8, 115u8, 34u8,
                58u8, 123u8]);
        }
        let mut i: usize = 0;
        proof {
            assert(out@ + Seq::<u8>::empty() =~= out@);
        }
        while i < self.entries.len()
            invariant
                0 <= i <= self.entries@.len(),
                header + spec_render_entries(self.entries@, 0) == out@ + spec_render_entries(
                    self.entries@,
                    i as int,
                ),
                header == seq![123u8, 34u8, 102u8, 105u8, 108u8, 101u8, 115u8, 34u8, 58u8,
                    123u8],
        decreases self.entries@.len() - i,
        {
            let ghost pre = out@;
            if i > 0 {
                out.push(44);
            }
            out.push(34);
            push_escaped(&mut out, self.entries[i].path.as_slice());
            out.push(34);
            out.push(58);
            out.push(34);
            push_escaped(&mut out, self.entries[i].hash.as_slice());
            out.push(34);
            proof {
                let e = self.entries@[i as int];
                assert(out@ =~= pre + (if i > 0 {
                    seq![44u8]
                } else {
                    Seq::<u8>::empty()
                }) + spec_render_entry(e));
                assert(pre + spec_render_entries(self.entries@, i as int) =~= out@
                    + spec_render_entries(self.entries@, i + 1));
            }
            i += 1;
        }
        proof {
            assert(spec_render_entries(self.entries@, self.entries@.len() as int)
                =~= Seq::<u8>::empty());
            assert(out@ + Seq::<u8>::empty() =~= out@);
        }
        out.push(125);
        out.push(125);
        proof {
            assert(out@ =~= spec_render_manifest(self.entries@));
        }
        out
    }

    /// The entry list behind the map, in storage order; what the blob
    /// renders.
    pub closed spec fn spec_entries(&self) -> Seq<ManifestEntry> {
        self.entries@
    }
}


/// A byte that the blob holds unescaped: printable, no quote, no
/// backslash.
pub open spec fn plain_byte(b: u8) -> bool {
    b >= 32 && b != 34 && b != 92
}

pub open spec fn plain_seq(s: Seq<u8>) -> bool {
    forall|i: int| 0 <= i < s.len() ==> plain_byte(#[trigger] s[i])
}

/// Every entry's bytes are plain.
pub open spec fn entries_plain_list(s: Seq<ManifestEntry>) -> bool {
    forall|i: int|
        0 <= i < s.len() ==> plain_seq((#[trigger] s[i]).path@) && plain_seq(s[i].hash@)
}

/// For plain bytes, escaping is the identity.
pub proof fn lemma_escape_plain(s: Seq<u8>)
    requires
        plain_seq(s),
    ensures
        spec_escape(s) == s,
    decreases s.len(),
{
    if s.len() > 0 {
        assert(plain_seq(s.skip(1))) by {
            assert(forall|i: int| 0 <= i < s.skip(1).len() ==> s.skip(1)[i] == s[i + 1]);
        }
        lemma_escape_plain(s.skip(1));
        assert(spec_escape_byte(s[0]) =~= seq![s[0]]);
        assert(seq![s[0]] + s.skip(1) =~= s);
    }
}

/// Rendering one more entry appends its comma-led encoding.
proof fn lemma_render_entries_push(s: Seq<ManifestEntry>, e: ManifestEntry)
    ensures
        spec_render_entries(s.push(e), 0) == spec_render_entries(s, 0) + (if s.len() > 0 {
            seq![44u8]
        } else {
            Seq::<u8>::empty()
        }) + spec_render_entry(e),
{
    lemma_render_entries_push_from(s, e, 0);
}

proof fn lemma_render_entries_push_from(s: Seq<ManifestEntry>, e: ManifestEntry, i: int)
    requires
        0 <= i <= s.len(),
    ensures
        spec_render_entries(s.push(e), i) == spec_render_entries(s, i) + (if s.len() > 0 {
            seq![44u8]
        } else {
            Seq::<u8>::empty()
        }) + spec_render_entry(e),
    decreases s.len() - i,
{
    let sp = s.push(e);
    let comma: Seq<u8> = if s.len() > 0 {
        seq![44u8]
    } else {
        Seq::<u8>::empty()
    };
    if i == s.len() {
        assert(sp[i] == e);
        assert(spec_render_entries(sp, i + 1) =~= Seq::<u8>::empty());
        assert(spec_render_entries(s, i) =~= Seq::<u8>::empty());
        let ci: Seq<u8> = if i > 0 {
            seq![44u8]
        } else {
            Seq::<u8>::empty()
        };
        assert(ci =~= comma);
        assert(spec_render_entries(sp, i) =~= ci + spec_render_entry(e)
            + Seq::<u8>::empty());
        assert(spec_render_entries(s, i) + comma + spec_render_entry(e) =~= ci
            + spec_render_entry(e) + Seq::<u8>::empty());
    } else {
        lemma_render_entries_push_from(s, e, i + 1);
        assert(sp[i] == s[i]);
        let ci: Seq<u8> = if i > 0 {
            seq![44u8]
        } else {
            Seq::<u8>::empty()
        };
        assert(spec_render_entries(sp, i) == ci + spec_render_entry(s[i])
            + spec_render_entries(sp, i + 1));
        assert(spec_render_entries(s, i) == ci + spec_render_entry(s[i])
            + spec_render_entries(s, i + 1));
        assert(ci + spec_render_entry(s[i]) + (spec_render_entries(s, i + 1) + comma
            + spec_render_entry(e)) =~= (ci + spec_render_entry(s[i])
            + spec_render_entries(s, i + 1)) + comma + spec_render_entry(e));
    }
}

impl Manifest {
    /// A manifest from a parsed entry list.
    pub fn from_entries(entries: Vec<ManifestEntry>) -> (r: Manifest)
        requires
            entries_unique(entries@),
        ensures
            r.wf(),
            r.spec_entries() == entries@,
    {
        Manifest { entries }
    }

    /// Reads the persisted blob back, for entries of plain bytes: a blob it
    /// accepts re-renders to exactly the same bytes, so the reloaded
    /// manifest is the one that was saved. A blob with escapes, duplicate
    /// paths or foreign bytes is refused, and the caller starts over from
    /// an empty index.
    #[verifier::rlimit(100)]
    #[verifier::spinoff_prover]
    pub fn parse(buf: &[u8]) -> (r: Option<Manifest>)
        ensures
            match r {
                Some(m) => m.wf() && spec_render_manifest(m.spec_entries()) == buf@
                    && entries_plain_list(m.spec_entries()),
                None => true,
            },
    {
        let ghost header_seq: Seq<u8> = seq![123u8, 34u8, 102u8, 105u8, 108u8, 101u8, 115u8,
            34u8, 58u8, 123u8];
        let n = buf.len();
        if n < 12 {
            return None;
        }
        let mut header: Vec<u8> = Vec::new();
        header.push(123);
        header.push(34);
        header.push(102);
        header.push(105);
        header.push(108);
        header.push(101);
        header.push(115);
        header.push(34);
        header.push(58);
        header.push(123);
        let head = vstd::slice::slice_subrange(buf, 0, 10);
        proof {
            assert(header@ =~= header_seq);
        }
        if !bytes_eq(head, header.as_slice()) {
            return None;
        }
        proof {
            assert(buf@.subrange(0, 10) =~= header_seq);
        }
        let mut entries: Vec<ManifestEntry> = Vec::new();
        if buf[10] == 125 {
            if n != 12 || buf[11] != 125 {
                return None;
            }
            let m = Manifest { entries };
            proof {
                assert(spec_render_entries(m.entries@, 0) =~= Seq::<u8>::empty());
                assert(spec_render_manifest(m.spec_entries()) =~= buf@);
            }
            return Some(m);
        }
        let mut pos: usize = 10;
        loop
            invariant_except_break
                10 <= pos <= buf@.len(),
                n == buf@.len(),
                n >= 12,
                entries_unique(entries@),
                entries_plain_list(entries@),
                buf@.subrange(0, pos as int) == header_seq + spec_render_entries(entries@, 0)
                    + (if entries@.len() > 0 {
                    seq![44u8]
                } else {
                    Seq::<u8>::empty()
                }),
                header_seq == seq![123u8, 34u8, 102u8, 105u8, 108u8, 101u8, 115u8, 34u8,
                    58u8, 123u8],
            ensures
                entries_unique(entries@),
                entries_plain_list(entries@),
                buf@ == spec_render_manifest(entries@),
            decreases n - pos,
        {
            let ghost pre_entries = entries@;
            let ghost pos0 = pos as int;
            if pos >= n || buf[pos] != 34 {
                return None;
            }
            let path_start = pos + 1;
            let mut e: usize = path_start;
            while e < n && buf[e] != 34 && buf[e] >= 32 && buf[e] != 92
                invariant
                    path_start <= e <= n,
                    n == buf@.len(),
                    forall|t: int| path_start <= t < e ==> plain_byte(#[trigger] buf@[t]),
                decreases n - e,
            {
                e += 1;
            }
            if e >= n || buf[e] != 34 {
                return None;
            }
            let path = crate::bytes::sub_vec(buf, path_start, e);
            if e >= n - 3 || buf[e + 1] != 58 || buf[e + 2] != 34 {
                return None;
            }
            let hash_start = e + 3;
            let mut h: usize = hash_start;
            while h < n && buf[h] != 34 && buf[h] >= 32 && buf[h] != 92
                invariant
                    hash_start <= h <= n,
                    n == buf@.len(),
                    forall|t: int| hash_start <= t < h ==> plain_byte(#[trigger] buf@[t]),
                decreases n - h,
            {
                h += 1;
            }
            if h >= n || buf[h] != 34 {
                return None;
            }
            let hash = crate::bytes::sub_vec(buf, hash_start, h);
            let mut unique = true;
            let mut d2: usize = 0;
            while d2 < entries.len()
                invariant
                    0 <= d2 <= entries@.len(),
                    unique ==> forall|t: int|
                        0 <= t < d2 ==> (#[trigger] entries@[t]).path@ != path@,
                decreases entries@.len() - d2,
            {
                if bytes_eq(entries[d2].path.as_slice(), path.as_slice()) {
                    unique = false;
                }
                d2 += 1;
            }
            if !unique {
                return None;
            }
            let entry = ManifestEntry { path, hash };
            let ghost ev = entry;
            entries.push(entry);
            pos = h + 1;
            proof {
                assert(entries@ == pre_entries.push(ev));
                assert(entries_unique(entries@)) by {
                    assert forall|a: int, b: int|
                        0 <= a < b < entries@.len() implies (
                    #[trigger] entries@[a]).path@ != (#[trigger] entries@[b]).path@ by {
                        if b < pre_entries.len() {
                            assert(entries@[a] == pre_entries[a]);
                            assert(entries@[b] == pre_entries[b]);
                        } else {
                            assert(entries@[a] == pre_entries[a]);
                            assert(entries@[b] == ev);
                        }
                    }
                }
                assert(entries_plain_list(entries@)) by {
                    assert forall|a: int| 0 <= a < entries@.len() implies plain_seq((
                    #[trigger] entries@[a]).path@) && plain_seq(entries@[a].hash@) by {
                        if a < pre_entries.len() {
                            assert(entries@[a] == pre_entries[a]);
                        } else {
                            assert(entries@[a] == ev);
                            assert(forall|t: int|
                                0 <= t < ev.path@.len() ==> plain_byte(
                                    #[trigger] ev.path@[t],
                                ));
                            assert(forall|t: int|
                                0 <= t < ev.hash@.len() ==> plain_byte(
                                    #[trigger] ev.hash@[t],
                                ));
                        }
                    }
                }
                lemma_escape_plain(ev.path@);
                lemma_escape_plain(ev.hash@);
                lemma_render_entries_push(pre_entries, ev);
                assert(spec_render_entry(ev) =~= seq![34u8] + ev.path@ + seq![34u8, 58u8,
                    34u8] + ev.hash@ + seq![34u8]);
                assert(buf@.subrange(pos0, pos as int) =~= spec_render_entry(ev)) by {
                    assert(buf@[pos0] == 34);
                    assert(buf@.subrange(path_start as int, e as int) =~= ev.path@);
                    assert(buf@[e as int] == 34 && buf@[e + 1] == 58 && buf@[e + 2] == 34);
                    assert(buf@.subrange(hash_start as int, h as int) =~= ev.hash@);
                    assert(buf@[h as int] == 34);
                }
                assert(buf@.subrange(0, pos as int) =~= buf@.subrange(0, pos0)
                    + buf@.subrange(pos0, pos as int));
                assert(buf@.subrange(0, pos as int) =~= header_seq + spec_render_entries(
                    entries@,
                    0,
                ));
            }
            if pos < n && buf[pos] == 44 {
                pos = pos + 1;
                proof {
                    assert(buf@.subrange(0, pos as int) =~= buf@.subrange(0, (pos - 1) as int)
                        + seq![buf@[pos - 1]]);
                    assert(buf@.subrange(0, pos as int) =~= header_seq + spec_render_entries(
                        entries@,
                        0,
                    ) + seq![44u8]);
                }
            } else if pos == n - 2 {
                if buf[pos] != 125 || buf[pos + 1] != 125 {
                    return None;
                }
                proof {
                    assert(buf@ =~= buf@.subrange(0, pos as int) + seq![125u8, 125u8]);
                    assert(buf@ =~= spec_render_manifest(entries@));
                }
                break;
            } else {
                return None;
            }
        }
        let m = Manifest { entries };
        Some(m)
    }
}

/// With unique paths, the map's domain is as large as the entry list.
proof fn lemma_entries_dom_len(s: Seq<ManifestEntry>)
    requires
        entries_unique(s),
    ensures
        entries_map(s).dom().finite(),
        entries_map(s).dom().len() == s.len(),
    decreases s.len(),
{
    if s.len() > 0 {
        let s2 = s.drop_last();
        assert(entries_unique(s2)) by {
            assert(forall|a: int, b: int|
                0 <= a < b < s2.len() ==> s2[a] == s[a] && s2[b] == s[b]);
        }
        lemma_entries_dom_len(s2);
        assert(forall|t: int| 0 <= t < s2.len() ==> s2[t] == s[t]);
        lemma_entries_map_absent(s2, s.last().path@);
        assert(entries_map(s).dom() =~= entries_map(s2).dom().insert(s.last().path@));
        vstd::set::axiom_set_insert_len(entries_map(s2).dom(), s.last().path@);
    }
}

} // verus!
