//! N-gram training over aligned dictionaries: each alignment line becomes a
//! linear acceptor over a shared symbol table. Counting and smoothing produce
//! empty transducers for now.
use crate::dict::{split_words, words};
use crate::fst::{empty_transducer, linear_acceptor, transducer_start, transducer_states, Transducer};
use crate::lattice::{extends, views, AlignError};
use crate::symbols::{add_symbol, eps_table, label_in, symbol_list, table_len};
use rustfst::SymbolTable;
use vstd::prelude::*;

verus! {

/// Configuration of the trainer.
pub struct Config {
    /// Order of N-grams
    pub order: u8,
    /// Write the output transducers for debugging
    pub write_fsts: bool,
}

/// N-gram trainer.
pub struct NGram {
    /// Configuration
    pub config: Config,
    /// A linear acceptor for each input line
    pub inputs: Vec<Transducer>,
    /// Symbol table of the alignment tokens
    pub syms: SymbolTable,
}

/// `t` is the linear acceptor of the words, weights one, each arc labelled with
/// its word in `syms`.
pub open spec fn accepts_words(t: Transducer, ws: Seq<Seq<char>>, syms: Seq<Seq<char>>) -> bool {
    let st = transducer_states(t);
    &&& transducer_start(t) == Some(0u32)
    &&& st.len() == ws.len() + 1
    &&& st[ws.len() as int] == (Seq::<(u32, u32, u32, u32)>::empty(), Some(0u32))
    &&& forall|k: int|
        0 <= k < ws.len() ==> (#[trigger] st[k]).0.len() == 1 && st[k].1 is None && label_in(syms, ws[k], st[k].0[0].0 as int)
            && st[k].0[0].1 == st[k].0[0].0 && st[k].0[0].2 == 0 && st[k].0[0].3 == k + 1
}

proof fn lemma_extends_step(a: Seq<Seq<char>>, b: Seq<Seq<char>>, c: Seq<Seq<char>>)
    requires
        extends(b, a),
        c.len() >= b.len(),
        c.subrange(0, b.len() as int) == b,
    ensures
        extends(c, a),
{
    assert(c.subrange(0, a.len() as int) =~= c.subrange(0, b.len() as int).subrange(0, a.len() as int));
}

impl NGram {
    /// A trainer with no input and a symbol table holding epsilon alone.
    pub fn new(config: Config) -> (r: NGram)
        ensures
            r.config == config,
            r.inputs@.len() == 0,
            symbol_list(r.syms) == seq!["<eps>"@],
    {
        NGram { config, inputs: Vec::new(), syms: eps_table() }
    }

    /// Reads aligned lines: the words of each line (its runs of non-white-space
    /// characters) are added to the symbol table and become a linear acceptor.
    pub fn load_alignments(&mut self, lines: &Vec<String>) -> (r: Result<(), AlignError>)
        requires
            symbol_list(old(self).syms).len() <= u32::MAX,
        ensures
            symbol_list(final(self).syms).len() <= u32::MAX,
            r is Err ==> r == Err::<(), AlignError>(AlignError::SymbolOverflow),
            r is Err ==> symbol_list(final(self).syms).len() >= u32::MAX || exists|k: int|
                0 <= k < lines.len() && words((#[trigger] lines@[k])@).len() >= u32::MAX,
            extends(symbol_list(final(self).syms), symbol_list(old(self).syms)),
            symbol_list(old(self).syms).no_duplicates() ==> symbol_list(final(self).syms).no_duplicates(),
            final(self).config == old(self).config,
            r is Ok ==> final(self).inputs@.len() == old(self).inputs@.len() + lines.len(),
            r is Ok ==> forall|k: int|
                0 <= k < lines.len() ==> accepts_words(
                    #[trigger] final(self).inputs@[old(self).inputs@.len() + k],
                    words(lines@[k]@),
                    symbol_list(final(self).syms),
                ),
    {
        let ghost n0 = self.inputs@.len();
        proof {
            let o = symbol_list(self.syms);
            assert(o.subrange(0, o.len() as int) =~= o);
        }
        let mut k: usize = 0;
        while k < lines.len()
            invariant
                k <= lines.len(),
                n0 == old(self).inputs@.len(),
                self.inputs@.len() == n0 + k,
                symbol_list(self.syms).len() <= u32::MAX,
                forall|j: int|
                    0 <= j < k ==> accepts_words(#[trigger] self.inputs@[n0 + j], words(lines@[j]@), symbol_list(self.syms)),
                extends(symbol_list(self.syms), symbol_list(old(self).syms)),
                symbol_list(old(self).syms).no_duplicates() ==> symbol_list(self.syms).no_duplicates(),
                self.config == old(self).config,
            decreases lines.len() - k,
        {
            let ws = split_words(lines[k].as_str());
            proof {
                let o = symbol_list(old(self).syms);
                let cur = symbol_list(self.syms);
                assert(cur.subrange(0, o.len() as int) == o);
            }
            let ghost syms0 = symbol_list(self.syms);
            let mut labels: Vec<u32> = Vec::new();
            let mut t: usize = 0;
            while t < ws.len()
                invariant
                    t <= ws.len(),
                    labels@.len() == t,
                    symbol_list(self.syms).len() <= u32::MAX,
                    syms0.len() <= symbol_list(self.syms).len(),
                    symbol_list(self.syms).subrange(0, syms0.len() as int) == syms0,
                    forall|y: int| 0 <= y < t ==> label_in(symbol_list(self.syms), ws@[y]@, #[trigger] labels@[y] as int),
                    k < lines.len(),
                    n0 == old(self).inputs@.len(),
                    self.inputs@.len() == n0 + k,
                    forall|j: int| 0 <= j < k ==> accepts_words(#[trigger] self.inputs@[n0 + j], words(lines@[j]@), syms0),
                    extends(symbol_list(self.syms), symbol_list(old(self).syms)),
                    extends(syms0, symbol_list(old(self).syms)),
                    symbol_list(old(self).syms).no_duplicates() ==> symbol_list(self.syms).no_duplicates(),
                    self.config == old(self).config,
                    views(ws@) == words(lines@[k as int]@),
                decreases ws.len() - t,
            {
                if table_len(&self.syms) >= 0xffff_ffffusize {
                    return Err(AlignError::SymbolOverflow);
                }
                let ghost before = symbol_list(self.syms);
                let l = add_symbol(&mut self.syms, ws[t].as_str());
                proof {
                    assert(symbol_list(self.syms).subrange(0, before.len() as int) =~= before);
                    assert forall|y: int| 0 <= y < t implies label_in(symbol_list(self.syms), ws@[y]@, #[trigger] labels@[y] as int) by {
                        assert(label_in(before, ws@[y]@, labels@[y] as int));
                        assert(symbol_list(self.syms)[labels@[y] as int] == before[labels@[y] as int]);
                    }
                    assert(symbol_list(self.syms).subrange(0, syms0.len() as int) =~= before.subrange(0, syms0.len() as int));
                    lemma_extends_step(symbol_list(old(self).syms), before, symbol_list(self.syms));
                }
                labels.push(l);
                t = t + 1;
            }
            if labels.len() >= 0xffff_ffff {
                proof {
                    assert(words(lines@[k as int]@).len() >= u32::MAX);
                }
                return Err(AlignError::SymbolOverflow);
            }
            let acc = linear_acceptor(&labels);
            let ghost old_inputs = self.inputs@;
            self.inputs.push(acc);
            proof {
                assert(views(ws@) == words(lines@[k as int]@));
                assert forall|j: int| 0 <= j < k implies accepts_words(#[trigger] self.inputs@[n0 + j], words(lines@[j]@), symbol_list(self.syms)) by {
                    assert(self.inputs@[n0 + j] == old_inputs[n0 + j]);
                    let ws_j = words(lines@[j]@);
                    let st = transducer_states(old_inputs[n0 + j]);
                    assert(accepts_words(old_inputs[n0 + j], ws_j, syms0));
                    assert(st.len() == ws_j.len() + 1);
                    assert forall|x: int| 0 <= x < ws_j.len() implies (#[trigger] st[x]).0.len() == 1 && st[x].1 is None && label_in(symbol_list(self.syms), ws_j[x], st[x].0[0].0 as int) && st[x].0[0].1 == st[x].0[0].0 && st[x].0[0].2 == 0 && st[x].0[0].3 == x + 1 by {
                        assert(st[x].0.len() == 1 && label_in(syms0, ws_j[x], st[x].0[0].0 as int));
                        assert(symbol_list(self.syms).subrange(0, syms0.len() as int)[st[x].0[0].0 as int] == syms0[st[x].0[0].0 as int]);
                    }
                }
                let st = transducer_states(acc);
                assert forall|x: int| 0 <= x < ws@.len() implies (#[trigger] st[x]).0.len() == 1 && st[x].1 is None && label_in(symbol_list(self.syms), views(ws@)[x], st[x].0[0].0 as int) && st[x].0[0].1 == st[x].0[0].0 && st[x].0[0].2 == 0 && st[x].0[0].3 == x + 1 by {
                    assert(st[x].0 == seq![(labels@[x], labels@[x], 0u32, (x + 1) as u32)]);
                }
            }
            k = k + 1;
        }
        Ok(())
    }

    /// N-gram counts of the inputs (none are gathered yet: an empty transducer).
    pub fn get_ngram_counts(&self, alignments: &Vec<Transducer>) -> (r: Result<Transducer, AlignError>)
        ensures
            r is Ok && transducer_states(r->Ok_0).len() == 0,
    {
        Ok(empty_transducer())
    }

    /// Modified Kneser-Ney model from counts (not built yet: an empty transducer).
    pub fn make_kn_model(&self, model: &Transducer) -> (r: Result<Transducer, AlignError>)
        ensures
            r is Ok && transducer_states(r->Ok_0).len() == 0,
    {
        Ok(empty_transducer())
    }

    /// Counts the inputs' N-grams and makes the model.
    pub fn train(&self) -> (r: Result<Transducer, AlignError>)
        ensures
            r is Ok && transducer_states(r->Ok_0).len() == 0,
    {
        let counts = match self.get_ngram_counts(&self.inputs) {
            Ok(c) => c,
            Err(e) => return Err(e),
        };
        self.make_kn_model(&counts)
    }
}

} // verus!
