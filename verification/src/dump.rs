//! The streaming dump driver: accepts the input in arbitrarily sized read
//! blocks, renders every complete `width`-sized row as soon as it is
//! available, and keeps only the incomplete tail row buffered, so memory use
//! stays bounded by one block plus one row regardless of the input's length.

use vstd::prelude::*;

use crate::config::Config;
use crate::render::{lemma_render_split, render, render_line, render_spec};

verus! {

/// A dump in progress. Feed it read blocks with [`Dumper::feed`] and close it
/// with [`Dumper::finish`]; the concatenation of everything the two return is
/// exactly the rendering of everything fed, starting at offset zero.
pub struct Dumper {
    cfg: Config,
    offset: u64,
    carry: Vec<u8>,
    fed: Ghost<Seq<u8>>,
    emitted: Ghost<Seq<u8>>,
}

impl Dumper {
    /// The configuration this dump renders with.
    pub closed spec fn cfg(self) -> Config {
        self.cfg
    }

    /// Every byte fed so far.
    pub closed spec fn fed(self) -> Seq<u8> {
        self.fed@
    }

    /// Every output byte handed back so far.
    pub closed spec fn emitted(self) -> Seq<u8> {
        self.emitted@
    }

    /// A dump in progress holds a valid configuration, buffers less than one
    /// row, and has emitted exactly the rendering of the bytes it has
    /// consumed into complete rows.
    pub closed spec fn wf(self) -> bool {
        &&& self.cfg.wf()
        &&& self.carry@.len() < self.cfg.width
        &&& self.fed@.len() <= u64::MAX
        &&& self.offset == self.fed@.len() - self.carry@.len()
        &&& self.offset as int % self.cfg.width as int == 0
        &&& self.carry@ == self.fed@.skip(self.offset as int)
        &&& self.emitted@ == render_spec(self.fed@.take(self.offset as int), 0, self.cfg)
    }

    /// Starts a dump at offset zero.
    pub fn new(cfg: Config) -> (d: Dumper)
        requires
            cfg.wf(),
        ensures
            d.wf(),
            d.cfg() == cfg,
            d.fed() == Seq::<u8>::empty(),
            d.emitted() == Seq::<u8>::empty(),
    {
        let d = Dumper {
            cfg,
            offset: 0,
            carry: Vec::new(),
            fed: Ghost(Seq::empty()),
            emitted: Ghost(Seq::empty()),
        };
        proof {
            assert(d.fed@.skip(0) =~= Seq::<u8>::empty());
            assert(d.fed@.take(0) =~= Seq::<u8>::empty());
        }
        d
    }

    /// Accepts one read block: renders every row it completes and returns
    /// that text, buffering the incomplete tail row.
    pub fn feed(&mut self, block: &[u8]) -> (out: Vec<u8>)
        requires
            old(self).wf(),
            old(self).fed().len() + block@.len() <= u64::MAX,
        ensures
            final(self).wf(),
            final(self).cfg() == old(self).cfg(),
            final(self).fed() == old(self).fed() + block@,
            final(self).emitted() == old(self).emitted() + out@,
    {
        let ghost fed0 = self.fed@;
        let ghost off0 = self.offset as int;
        let mut data: Vec<u8> = Vec::new();
        data.append(&mut self.carry);
        data.extend_from_slice(block);
        proof {
            self.fed@ = fed0 + block@;
            assert(data@ =~= self.fed@.skip(off0));
        }
        let rows = data.len() / self.cfg.width;
        proof {
            vstd::arithmetic::div_mod::lemma_fundamental_div_mod(
                data@.len() as int,
                self.cfg.width as int,
            );
            vstd::arithmetic::div_mod::lemma_mod_bound(data@.len() as int, self.cfg.width as int);
        }
        let cut = rows * self.cfg.width;
        let head = vstd::slice::slice_subrange(data.as_slice(), 0, cut);
        let out = render(head, self.offset, &self.cfg);
        let tail = vstd::slice::slice_subrange(data.as_slice(), cut, data.len());
        self.carry = vstd::slice::slice_to_vec(tail);
        self.offset = self.offset + cut as u64;
        proof {
            let off1 = self.offset as int;
            let w = self.cfg.width as int;
            assert(self.carry@ =~= self.fed@.skip(off1));
            assert(off1 % w == 0) by {
                vstd::arithmetic::div_mod::lemma_mod_multiples_basic(rows as int, w);
                vstd::arithmetic::div_mod::lemma_add_mod_noop(off0, cut as int, w);
                vstd::arithmetic::div_mod::lemma_small_mod(0nat, self.cfg.width as nat);
            }
            lemma_render_split(self.fed@.take(off1), 0, self.cfg, off0);
            assert(self.fed@.take(off1).take(off0) =~= fed0.take(off0));
            assert(self.fed@.take(off1).skip(off0) =~= head@);
            self.emitted@ = self.emitted@ + out@;
        }
        out
    }

    /// Closes the dump: renders the buffered tail row, if any, and returns
    /// it. Everything emitted over the dump's lifetime is then exactly the
    /// rendering of everything fed.
    pub fn finish(&mut self) -> (out: Vec<u8>)
        requires
            old(self).wf(),
        ensures
            final(self).cfg() == old(self).cfg(),
            final(self).fed() == old(self).fed(),
            final(self).emitted() == old(self).emitted() + out@,
            final(self).emitted() == render_spec(old(self).fed(), 0, old(self).cfg()),
    {
        let ghost off0 = self.offset as int;
        proof {
            lemma_render_split(self.fed@, 0, self.cfg, off0);
            assert(self.fed@.take(self.fed@.len() as int) =~= self.fed@);
        }
        let out = if self.carry.len() > 0 {
            let line = render_line(self.offset, self.carry.as_slice(), &self.cfg);
            proof {
                assert(render_spec(self.fed@.skip(off0), off0, self.cfg) == line@);
            }
            line
        } else {
            proof {
                assert(self.fed@.skip(off0) =~= Seq::<u8>::empty());
            }
            Vec::new()
        };
        let n = self.carry.len();
        self.carry = Vec::new();
        self.offset = self.offset + n as u64;
        proof {
            self.emitted@ = self.emitted@ + out@;
        }
        out
    }
}

} // verus!
