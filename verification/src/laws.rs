//! What holds of the tokenizer as a whole.
use crate::batch::{count_below, joined, lemma_count_below, rows};
use crate::bpe::{lemma_merge_shrinks, total};
use crate::cache::CacheState;
use crate::decode::{index_of, DecodeError};
use crate::segment::{lemma_all_sym_toks, lemma_total_ones, ones};
use crate::tables::Tables;
use crate::tok::{Tok, C_NUM, C_WORD};
use crate::unit::{lemma_find, lemma_run, lemma_span, word_mask, C_ALNUM, C_STOP};
use crate::utf8::code_points;
use vstd::prelude::*;
use vstd::utf8::encode_utf8;

verus! {

impl Tables {
    /// The units of a text tile it: none is empty, and one after the other they are the text.
    pub proof fn law_units_tile(self, text: Seq<char>)
        ensures
            self.units(text).flatten() == text,
            forall|i: int|
                0 <= i < self.units(text).len() ==> (#[trigger] self.units(text)[i]).len() > 0,
        decreases text.len(),
    {
        let units = self.units(text);
        if text.len() == 0 {
            assert(units.flatten() =~= text);
        } else {
            let end = self.first_unit(text).end;
            let rest = text.skip(end);
            self.lemma_first_unit(text);
            self.lemma_encode_step(text);
            self.law_units_tile(rest);
            assert(units.drop_first() =~= self.units(rest));
            assert(units.flatten() =~= text);
            assert forall|i: int| 0 <= i < units.len() implies (#[trigger] units[i]).len() > 0 by {
                if i > 0 {
                    assert(units[i] == self.units(rest)[i - 1]);
                }
            }
        }
    }

    /// The tokens of a unit depend on its text alone: by itself, each unit of a text is a text of
    /// one unit, and has the tokens that it has within the text.
    pub proof fn law_unit_alone(self, text: Seq<char>, i: int)
        requires
            0 <= i < self.units(text).len(),
        ensures
            self.units(self.units(text)[i]) == seq![self.units(text)[i]],
            self.encode(self.units(text)[i]) == self.unit_toks(self.units(text)[i]),
        decreases text.len(),
    {
        let end = self.first_unit(text).end;
        let unit = text.take(end);
        self.lemma_first_unit(text);
        self.lemma_encode_step(text);
        if i == 0 {
            self.lemma_encode_step(unit);
            assert(unit.take(end) =~= unit);
            assert(unit.skip(end) =~= seq![]);
            assert(self.units(unit) =~= seq![unit]);
            assert(self.unit_toks(unit) + self.encode(seq![]) =~= self.unit_toks(unit));
        } else {
            assert(self.units(text)[i] == self.units(text).skip(1)[i - 1]);
            self.law_unit_alone(text.skip(end), i - 1);
        }
    }

    /// A unit is what it should be: characters that are neither letters nor digits, then either
    /// letters and marks or digits, as far as they go, then, unless punctuation belongs to the
    /// next word, characters that are neither letters, digits nor white space, as far as they go.
    /// Without a word it is the rest of the text.
    pub proof fn law_unit_shape(self, text: Seq<char>)
        requires
            text.len() > 0,
        ensures
            ({
                let cl = self.classes(text);
                let sp = self.first_unit(text);
                let kind = word_mask(cl[sp.word]);
                &&& 0 <= sp.word <= sp.word_end <= sp.end <= text.len()
                &&& 0 < sp.end
                &&& forall|i: int| 0 <= i < sp.word ==> #[trigger] cl[i] & C_ALNUM == 0
                &&& sp.junk ==> sp.word == text.len()
                &&& !sp.junk ==> {
                    &&& sp.word < sp.word_end
                    &&& kind == C_WORD || kind == C_NUM
                    &&& forall|i: int|
                        sp.word <= i < sp.word_end ==> #[trigger] cl[i] & kind != 0
                    &&& sp.word_end < text.len() ==> cl[sp.word_end] & kind == 0
                    &&& forall|i: int|
                        sp.word_end <= i < sp.end ==> #[trigger] cl[i] & C_STOP == 0
                    &&& self.punct_to_next ==> sp.end == sp.word_end
                    &&& !self.punct_to_next && sp.end < text.len() ==> cl[sp.end] & C_STOP != 0
                }
            }),
    {
        let cl = self.classes(text);
        let sp = self.first_unit(text);
        lemma_span(cl, 0, self.punct_to_next);
        lemma_find(cl, 0, C_ALNUM);
        if !sp.junk {
            lemma_run(cl, sp.word, word_mask(cl[sp.word]));
            lemma_find(cl, sp.word_end, C_STOP);
        }
    }

    /// A text has no tokens if it is empty, and at least one for each unit if it is not.
    pub proof fn law_tokens_of_units(self, text: Seq<char>)
        ensures
            text.len() == 0 ==> self.encode(text).len() == 0,
            self.encode(text).len() >= self.units(text).len(),
            text.len() > 0 ==> self.units(text).len() > 0,
        decreases text.len(),
    {
        if text.len() > 0 {
            let end = self.first_unit(text).end;
            self.lemma_first_unit(text);
            self.lemma_encode_step(text);
            self.law_tokens_of_units(text.skip(end));
            self.lemma_unit_toks(text.take(end));
        }
    }

    /// A unit has a token.
    proof fn lemma_unit_toks(self, unit: Seq<char>)
        requires
            unit.len() > 0,
            self.first_unit(unit).end == unit.len(),
        ensures
            self.unit_toks(unit).len() > 0,
    {
        let sp = self.first_unit(unit);
        self.lemma_first_unit(unit);
        if sp.junk {
            let syms = self.syms(code_points(unit));
            self.lemma_bpe_lens(syms, ones(syms.len()));
            lemma_all_sym_toks(self.bpe(syms));
        } else {
            self.lemma_word_toks(code_points(unit.subrange(sp.word, sp.word_end)));
        }
    }

    /// Byte-pair encoding goes on until nothing merges any more.
    pub proof fn law_bpe_done(self, syms: Seq<u32>)
        ensures
            forall|i: int| !#[trigger] self.merges_at(self.bpe(syms), i),
            self.bpe(self.bpe(syms)) == self.bpe(syms),
        decreases syms.len(),
    {
        if exists|i: int| self.best_at(syms, i) {
            let i = choose|i: int| self.best_at(syms, i);
            let (a, b) = (syms[i], syms[i + 1]);
            lemma_merge_shrinks(syms, a, b, self.merges[(a, b)].1, i);
            self.law_bpe_done(self.merged_once(syms, i));
        } else {
            assert forall|i: int| !#[trigger] self.merges_at(syms, i) by {
                if self.merges_at(syms, i) {
                    let b = self.lemma_best_exists(syms, i);
                }
            }
        }
    }

    /// The symbols that are left cover all characters: the numbers of characters that they stand
    /// for are positive and add up.
    pub proof fn law_bpe_covers(self, syms: Seq<u32>)
        ensures
            self.bpe_lens(syms, ones(syms.len())).len() == self.bpe(syms).len(),
            total(self.bpe_lens(syms, ones(syms.len()))) == syms.len(),
            forall|k: int|
                0 <= k < self.bpe(syms).len() ==> #[trigger] self.bpe_lens(
                    syms,
                    ones(syms.len()),
                )[k] > 0,
    {
        self.lemma_bpe_lens(syms, ones(syms.len()));
        lemma_total_ones(syms.len());
    }

    /// The prefix that is found is the longest one of the table, up to the length that is looked
    /// for.
    pub proof fn law_longest_prefix(self, pre: Seq<char>, k: int)
        requires
            0 < k <= pre.len(),
            k <= self.max_p,
            self.prefixes.contains_key(encode_utf8(pre.skip(pre.len() - k))),
        ensures
            ({
                let (p, head) = self.prefix_of(pre);
                &&& 0 <= head <= pre.len() - k
                &&& self.prefixes.contains_key(encode_utf8(pre.skip(head)))
                &&& p == self.prefixes[encode_utf8(pre.skip(head))]
            }),
    {
        self.lemma_prefix_reaches(
            pre,
            if pre.len() < self.max_p {
                pre.len() as int
            } else {
                self.max_p as int
            },
            k,
        );
    }

    proof fn lemma_prefix_reaches(self, pre: Seq<char>, n: int, k: int)
        requires
            0 < k <= n <= pre.len(),
            self.prefixes.contains_key(encode_utf8(pre.skip(pre.len() - k))),
        ensures
            ({
                let (p, head) = self.prefix_within(pre, n);
                &&& 0 <= head <= pre.len() - k
                &&& self.prefixes.contains_key(encode_utf8(pre.skip(head)))
                &&& p == self.prefixes[encode_utf8(pre.skip(head))]
            }),
        decreases n,
    {
        if !self.prefixes.contains_key(encode_utf8(pre.skip(pre.len() - n))) {
            self.lemma_prefix_reaches(pre, n - 1, k);
        }
    }

    /// The suffix that is found is the longest one of the table, up to the length that is looked
    /// for.
    pub proof fn law_longest_suffix(self, suf: Seq<char>, k: int)
        requires
            0 < k <= suf.len(),
            k <= self.max_s,
            self.suffixes.contains_key(encode_utf8(suf.take(k))),
        ensures
            ({
                let (s, tail) = self.suffix_of(suf);
                &&& k <= tail <= suf.len()
                &&& self.suffixes.contains_key(encode_utf8(suf.take(tail)))
                &&& s == self.suffixes[encode_utf8(suf.take(tail))]
            }),
    {
        self.lemma_suffix_reaches(
            suf,
            if suf.len() < self.max_s {
                suf.len() as int
            } else {
                self.max_s as int
            },
            k,
        );
    }

    proof fn lemma_suffix_reaches(self, suf: Seq<char>, n: int, k: int)
        requires
            0 < k <= n <= suf.len(),
            self.suffixes.contains_key(encode_utf8(suf.take(k))),
        ensures
            ({
                let (s, tail) = self.suffix_within(suf, n);
                &&& k <= tail <= suf.len()
                &&& self.suffixes.contains_key(encode_utf8(suf.take(tail)))
                &&& s == self.suffixes[encode_utf8(suf.take(tail))]
            }),
        decreases n,
    {
        if !self.suffixes.contains_key(encode_utf8(suf.take(n))) {
            self.lemma_suffix_reaches(suf, n - 1, k);
        }
    }

    /// Counting units by their starts counts what cutting them off one by one counts, on every
    /// text, if no code point is of two kinds.
    pub proof fn law_count_units(self, text: Seq<char>)
        requires
            self.cls.len() == 0x110000,
            self.exclusive(),
        ensures
            self.starts_in(text) == self.units(text).len(),
    {
        self.lemma_starts_in(text);
    }

    /// Rows of ids decode one after the other: if the first ones decode, the rest decides, and if
    /// they do not, their error is the error of all.
    pub proof fn law_decode_rows(self, x: Seq<i32>, y: Seq<i32>)
        requires
            x.len() % 4 == 0,
        ensures
            self.decode(x + y) == (match self.decode(x) {
                Ok(a) => match self.decode(y) {
                    Ok(b) => Ok::<Seq<u8>, DecodeError>(a + b),
                    Err(e) => Err::<Seq<u8>, DecodeError>(e),
                },
                Err(e) => Err::<Seq<u8>, DecodeError>(e),
            }),
        decreases x.len(),
    {
        if x.len() == 0 {
            assert(x + y =~= y);
            if let Ok(b) = self.decode(y) {
                assert(seq![] + b =~= b);
            }
        } else {
            let rest = x.skip(4);
            self.law_decode_rows(rest, y);
            assert((x + y).skip(4) =~= rest + y);
            let first = self.tok_bytes(
                index_of(x[0]),
                index_of(x[1]),
                index_of(x[2]),
                index_of(x[3]),
            );
            if let (Some(h), Ok(a), Ok(b)) = (first, self.decode(rest), self.decode(y)) {
                assert(h + (a + b) =~= (h + a) + b);
            }
        }
    }

    /// A negative id is out of range, in tables that signed ids reach the end of.
    pub proof fn law_negative_ids(self, ids: Seq<i32>, i: int)
        requires
            ids.len() % 4 == 0,
            0 <= i < ids.len(),
            ids[i] < 0,
            self.dec_prefix.len() <= 0x8000_0000,
            self.dec_suffix.len() <= 0x8000_0000,
            self.dec_core.len() <= 0x8000_0000,
            forall|v: int|
                0 <= v < self.dec_core.len() ==> (#[trigger] self.dec_core[v]).len()
                    <= 0x8000_0000,
        ensures
            self.decode(ids) is Err,
        decreases ids.len(),
    {
        if i < 4 {
            let id = ids[i];
            assert(id < 0 ==> (id as usize) >= 0x8000_0000) by (bit_vector);
        } else {
            self.law_negative_ids(ids.skip(4), i - 4);
        }
    }

    /// What a cache holds it keeps, whatever units are looked up in it.
    pub proof fn law_cache_keeps(self, c: CacheState, units: Seq<Seq<char>>, key: Seq<u8>)
        requires
            c.entries.contains_key(key),
        ensures
            self.all_looked_up(c, units).entries.contains_key(key),
            self.all_looked_up(c, units).entries[key] == c.entries[key],
        decreases units.len(),
    {
        if units.len() > 0 {
            self.law_cache_keeps(self.looked_up(c, units[0]), units.skip(1), key);
        }
    }

    /// A cache never holds more units than its limit.
    pub proof fn law_cache_bounded(self, c: CacheState, units: Seq<Seq<char>>)
        requires
            c.size <= c.limit,
        ensures
            self.all_looked_up(c, units).size <= self.all_looked_up(c, units).limit,
            self.all_looked_up(c, units).limit == c.limit,
        decreases units.len(),
    {
        if units.len() > 0 {
            self.law_cache_bounded(self.looked_up(c, units[0]), units.skip(1));
        }
    }

    /// The size of a cache is the number of the different units that it holds.
    pub proof fn law_cache_size(self, c: CacheState, units: Seq<Seq<char>>)
        requires
            c.entries.dom().finite(),
            c.entries.dom().len() == c.size,
        ensures
            self.all_looked_up(c, units).entries.dom().finite(),
            self.all_looked_up(c, units).entries.dom().len() == self.all_looked_up(c, units).size,
        decreases units.len(),
    {
        if units.len() > 0 {
            let now = self.looked_up(c, units[0]);
            assert(now.entries.dom().finite() && now.entries.dom().len() == now.size) by {
                let key = encode_utf8(units[0]);
                if now != c {
                    assert(now.entries.dom() =~= c.entries.dom().insert(key));
                }
            }
            self.law_cache_size(now, units.skip(1));
        }
    }

    /// A cache that holds all units of a text is not changed by encoding the text.
    pub proof fn law_cache_warm(self, c: CacheState, units: Seq<Seq<char>>)
        requires
            forall|i: int|
                0 <= i < units.len() ==> c.entries.contains_key(encode_utf8(#[trigger] units[i])),
        ensures
            self.all_looked_up(c, units) == c,
        decreases units.len(),
    {
        if units.len() > 0 {
            assert(c.entries.contains_key(encode_utf8(units[0])));
            assert forall|i: int| 0 <= i < units.skip(1).len() implies c.entries.contains_key(
                encode_utf8(#[trigger] units.skip(1)[i]),
            ) by {
                assert(units.skip(1)[i] == units[i + 1]);
            }
            self.law_cache_warm(c, units.skip(1));
        }
    }
}

/// What can be done to a cache.
pub enum CacheOp {
    /// The tokens of a unit are offered to it.
    Insert(Seq<u8>, Seq<Tok>),
    /// It forgets everything.
    Clear,
}

impl CacheState {
    /// A cache after one operation after the other.
    pub open spec fn after(self, ops: Seq<CacheOp>) -> CacheState
        decreases ops.len(),
    {
        if ops.len() == 0 {
            self
        } else {
            let next = match ops[0] {
                CacheOp::Insert(key, toks) => self.store(key, toks),
                CacheOp::Clear => CacheState::empty(self.limit),
            };
            next.after(ops.skip(1))
        }
    }

    /// Whatever has been inserted into a new cache and cleared from it, it has its limit, holds no
    /// more units than that, and its slots are a power of two, at least as many as those of a new
    /// table and at least twice as many as the units.
    pub proof fn law_any_history(limit: nat, ops: Seq<CacheOp>)
        ensures
            CacheState::empty(limit).after(ops).limit == limit,
            CacheState::empty(limit).after(ops).in_shape(),
    {
        CacheState::lemma_empty_shape(limit);
        CacheState::empty(limit).lemma_after(ops);
    }

    proof fn lemma_after(self, ops: Seq<CacheOp>)
        requires
            self.in_shape(),
        ensures
            self.after(ops).limit == self.limit,
            self.after(ops).in_shape(),
        decreases ops.len(),
    {
        if ops.len() > 0 {
            match ops[0] {
                CacheOp::Insert(key, toks) => {
                    self.lemma_store_shape(key, toks);
                    self.store(key, toks).lemma_after(ops.skip(1));
                },
                CacheOp::Clear => {
                    CacheState::lemma_empty_shape(self.limit);
                    CacheState::empty(self.limit).lemma_after(ops.skip(1));
                },
            }
        }
    }

    /// What a cache accepts can be read back, and nothing else in it changes. What it does not
    /// accept leaves it as it is.
    pub proof fn law_reads_back(self, key: Seq<u8>, toks: Seq<Tok>, other: Seq<u8>)
        ensures
            self.accepts(key, toks) ==> self.store(key, toks).entries.contains_key(key)
                && self.store(key, toks).entries[key] == toks,
            other != key ==> (self.store(key, toks).entries.contains_key(other)
                <==> self.entries.contains_key(other)),
            other != key && self.entries.contains_key(other) ==> self.store(
                key,
                toks,
            ).entries[other] == self.entries[other],
            !self.accepts(key, toks) ==> self.store(key, toks) == self,
    {
    }
}

/// A new cache belongs to every tokenizer, and holds nothing.
pub proof fn law_new_cache(t: Tables, limit: nat)
    ensures
        t.owns(CacheState::empty(limit)),
        CacheState::empty(limit).size == 0,
        CacheState::empty(limit).entries.dom().finite(),
        CacheState::empty(limit).entries.dom().len() == 0,
{
    assert(CacheState::empty(limit).entries.dom() =~= Set::empty());
}

/// The tokens of many texts in one list: the offsets start at 0 and never fall, the last one is the
/// length of the list, and the tokens of each text lie between its offset and the next one. So do
/// the rows of their ids, four ids to a row. Of no texts there are no tokens, and the one offset is
/// 0.
pub proof fn law_offsets(lists: Seq<Seq<Tok>>)
    ensures
        ({
            let n = lists.len() as int;
            let flat = joined(lists, n);
            &&& count_below(lists, 0) == 0
            &&& count_below(lists, n) == flat.len()
            &&& rows(flat).len() == 4 * flat.len()
            &&& forall|i: int, j: int|
                0 <= i <= j <= n ==> #[trigger] count_below(lists, i) <= #[trigger] count_below(
                    lists,
                    j,
                )
            &&& forall|i: int|
                0 <= i < n ==> flat.subrange(
                    count_below(lists, i) as int,
                    count_below(lists, i + 1) as int,
                ) == #[trigger] lists[i]
            &&& forall|i: int|
                0 <= i < n ==> rows(flat).subrange(
                    4 * count_below(lists, i) as int,
                    4 * count_below(lists, i + 1) as int,
                ) == rows(#[trigger] lists[i])
        }),
{
    let n = lists.len() as int;
    let flat = joined(lists, n);
    lemma_count_below(lists, n, n);
    lemma_rows_len(flat);
    assert forall|i: int, j: int| 0 <= i <= j <= n implies #[trigger] count_below(lists, i)
        <= #[trigger] count_below(lists, j) by {
        lemma_count_below(lists, i, j);
    }
    assert forall|i: int| 0 <= i < n implies flat.subrange(
        count_below(lists, i) as int,
        count_below(lists, i + 1) as int,
    ) == #[trigger] lists[i] by {
        lemma_part(lists, i, n);
    }
    assert forall|i: int| 0 <= i < n implies rows(flat).subrange(
        4 * count_below(lists, i) as int,
        4 * count_below(lists, i + 1) as int,
    ) == rows(#[trigger] lists[i]) by {
        lemma_part(lists, i, n);
        lemma_rows_part(flat, count_below(lists, i) as int, count_below(lists, i + 1) as int);
    }
}

impl Tables {
    /// The tokens of many texts in one list hold the tokens of each text where its offsets say.
    pub proof fn law_flat_batch(self, texts: Seq<Seq<char>>, i: int)
        requires
            0 <= i < texts.len(),
        ensures
            ({
                let lists = texts.map_values(|text: Seq<char>| self.encode(text));
                joined(lists, lists.len() as int).subrange(
                    count_below(lists, i) as int,
                    count_below(lists, i + 1) as int,
                ) == self.encode(texts[i])
            }),
    {
        let lists = texts.map_values(|text: Seq<char>| self.encode(text));
        law_offsets(lists);
        assert(lists[i] == self.encode(texts[i]));
    }
}

/// There are four ids to a row.
proof fn lemma_rows_len(toks: Seq<Tok>)
    ensures
        rows(toks).len() == 4 * toks.len(),
    decreases toks.len(),
{
    if toks.len() > 0 {
        lemma_rows_len(toks.skip(1));
    }
}

/// The rows of tokens, one list after the other.
proof fn lemma_rows_concat(a: Seq<Tok>, b: Seq<Tok>)
    ensures
        rows(a + b) == rows(a) + rows(b),
    decreases a.len(),
{
    if a.len() == 0 {
        assert(a + b =~= b);
        assert(rows(a) + rows(b) =~= rows(b));
    } else {
        lemma_rows_concat(a.skip(1), b);
        assert((a + b).skip(1) =~= a.skip(1) + b);
        assert(rows(a + b) =~= rows(a) + rows(b));
    }
}

/// The rows of a part of the tokens.
proof fn lemma_rows_part(toks: Seq<Tok>, i: int, j: int)
    requires
        0 <= i <= j <= toks.len(),
    ensures
        rows(toks).subrange(4 * i, 4 * j) == rows(toks.subrange(i, j)),
{
    let head = toks.take(i);
    let mid = toks.subrange(i, j);
    let tail = toks.skip(j);
    lemma_rows_concat(head, mid);
    lemma_rows_concat(head + mid, tail);
    lemma_rows_len(head);
    lemma_rows_len(mid);
    lemma_rows_len(tail);
    assert(head + mid + tail =~= toks);
    assert(rows(toks).subrange(4 * i, 4 * j) =~= rows(mid));
}

proof fn lemma_part(lists: Seq<Seq<Tok>>, i: int, n: int)
    requires
        0 <= i < n <= lists.len(),
    ensures
        count_below(lists, i) <= count_below(lists, i + 1) <= joined(lists, n).len(),
        joined(lists, n).subrange(
            count_below(lists, i) as int,
            count_below(lists, i + 1) as int,
        ) == lists[i],
        joined(lists, n).len() == count_below(lists, n),
    decreases n,
{
    lemma_count_below(lists, n - 1, n - 1);
    lemma_count_below(lists, i + 1, n);
    if i == n - 1 {
        assert(joined(lists, n).subrange(
            count_below(lists, i) as int,
            count_below(lists, i + 1) as int,
        ) =~= lists[i]);
    } else {
        lemma_part(lists, i, n - 1);
        assert(joined(lists, n).subrange(
            count_below(lists, i) as int,
            count_below(lists, i + 1) as int,
        ) =~= joined(lists, n - 1).subrange(
            count_below(lists, i) as int,
            count_below(lists, i + 1) as int,
        ));
    }
}

} // verus!
