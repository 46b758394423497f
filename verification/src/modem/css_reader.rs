//! How a receiver reads a frame of chirps.
//!
//! The caller measures: it tells how a chirp of the preamble lies, and which symbol is heard at a
//! place of the frame. The reader says what to look at next, and what it comes to.

use vstd::prelude::*;
use crate::modem::css::{CssLayout, MAGIC_SYNC, PREAMBLE_DOWN, PREAMBLE_UP, SYNC_SYMS};
use crate::modem::reader;
use crate::modem::reader::{verdict, FrameReader, Reading, Verdict};

verus! {

/// How many chirps of the preamble are looked at.
pub const ALIGN_CHIRPS: usize = PREAMBLE_UP - 2;

/// How far a search has come.
pub enum CssStage {
    /// Chirp `k` of the preamble is looked at; `used` of those before were clear.
    Align { k: int, used: int },
    /// The sync symbol is awaited.
    Sync,
    /// The symbols behind the sync symbol that were heard.
    Read { seen: Seq<u16> },
    /// The search is over.
    Over,
}

/// A search behind the edge of a preamble in a recording. `symbol` is the length of a symbol and
/// `width` the number of its bits.
pub struct CssSearch {
    pub edge: int,
    pub recorded: int,
    pub symbol: int,
    pub width: nat,
    pub stage: CssStage,
}

/// What a search asks for.
pub enum CssWish {
    /// How the chirp of the preamble lies that is looked for from this sample on.
    Align(int),
    /// The symbol with this number, counted from the first chirp of the preamble.
    Symbol(int),
    /// Nothing: the bytes of the frame.
    Frame(Seq<u8>),
    /// Nothing: there is no frame.
    Lost,
}

pub open spec fn at_stage(s: CssSearch, stage: CssStage) -> CssSearch {
    CssSearch { edge: s.edge, recorded: s.recorded, symbol: s.symbol, width: s.width, stage }
}

pub open spec fn lose(s: CssSearch) -> (CssSearch, CssWish) {
    (at_stage(s, CssStage::Over), CssWish::Lost)
}

/// Looks at chirp `k` if it lies in the recording, and otherwise goes on to the sync symbol, if any
/// chirp was clear.
pub open spec fn align(s: CssSearch, k: int, used: int) -> (CssSearch, CssWish) {
    let off = s.edge + (k + 1) * s.symbol;
    if k < ALIGN_CHIRPS && off + s.symbol <= s.recorded {
        (at_stage(s, CssStage::Align { k, used }), CssWish::Align(off))
    } else if used < 1 {
        lose(s)
    } else {
        (at_stage(s, CssStage::Sync), CssWish::Symbol(10))
    }
}

/// The search begins.
pub open spec fn begin(edge: int, recorded: int, symbol: int, width: nat) -> (CssSearch, CssWish) {
    align(CssSearch { edge, recorded, symbol, width, stage: CssStage::Over }, 0, 0)
}

/// A chirp of the preamble was looked at; `clear` says that it stood out.
pub open spec fn after_align(s: CssSearch, clear: bool) -> (CssSearch, CssWish) {
    match s.stage {
        CssStage::Align { k, used } => align(
            s,
            k + 1,
            used + (if clear {
                1int
            } else {
                0int
            }),
        ),
        _ => lose(s),
    }
}

/// A symbol was heard, or lies outside of the recording.
pub open spec fn after_symbol(s: CssSearch, heard: Option<u16>) -> (CssSearch, CssWish) {
    match (s.stage, heard) {
        (CssStage::Sync, Some(symbol)) => if symbol == MAGIC_SYNC {
            (at_stage(s, CssStage::Read { seen: Seq::empty() }), CssWish::Symbol(11))
        } else {
            lose(s)
        },
        (CssStage::Read { seen }, Some(symbol)) => {
            let now = seen.push(symbol);
            match verdict(now, s.width) {
                Verdict::More => (
                    at_stage(s, CssStage::Read { seen: now }),
                    CssWish::Symbol(11 + now.len() as int),
                ),
                Verdict::Rejected => lose(s),
                Verdict::Complete(bytes) => (at_stage(s, CssStage::Over), CssWish::Frame(bytes)),
            }
        },
        _ => lose(s),
    }
}

/// What becomes of a search when symbols are heard one after the other.
pub open spec fn hear_all(s: CssSearch, heard: Seq<u16>) -> (CssSearch, CssWish)
    recommends
        heard.len() > 0,
    decreases heard.len(),
{
    if heard.len() == 0 {
        (s, CssWish::Lost)
    } else {
        after_symbol(hear_all(s, heard.drop_last()).0, Some(heard.last()))
    }
}

proof fn lemma_hear(s: CssSearch, heard: Seq<u16>, n: int)
    requires
        s.stage is Sync,
        1 <= n < heard.len(),
        heard[0] == MAGIC_SYNC,
        forall|m: int|
            0 <= m < heard.len() - 1 ==> verdict(#[trigger] heard.skip(1).take(m), s.width) is More,
    ensures
        hear_all(s, heard.take(n)).0 == at_stage(
            s,
            CssStage::Read { seen: heard.skip(1).take(n - 1) },
        ),
    decreases n,
{
    let part = heard.take(n);
    assert(part.drop_last() =~= heard.take(n - 1));
    assert(part.last() == heard[n - 1]);
    if n == 1 {
        assert(hear_all(s, heard.take(0)).0 == s);
        assert(heard.skip(1).take(0) =~= Seq::<u16>::empty());
    } else {
        lemma_hear(s, heard, n - 1);
        assert(heard.skip(1).take(n - 2).push(heard[n - 1]) =~= heard.skip(1).take(n - 1));
        assert(verdict(heard.skip(1).take(n - 1), s.width) is More);
    }
}

/// A frame is read when its preamble was found and all of its symbols are heard.
pub proof fn law_frame_is_read(s: CssSearch, bytes: Seq<u8>)
    requires
        s.stage is Sync,
        1 <= s.width <= 16,
        reader::plausible(bytes.len()),
    ensures
        hear_all(s, reader::on_air(bytes, s.width, MAGIC_SYNC)).1 == CssWish::Frame(bytes),
{
    let air = reader::on_air(bytes, s.width, MAGIC_SYNC);
    let body = air.skip(1);
    reader::law_frame_roundtrip(bytes, s.width, MAGIC_SYNC);
    let n = air.len() as int;
    assert(n >= 2) by {
        if n < 2 {
            assert(body.len() == 0);
            assert(verdict(body, s.width) is Complete);
            reader::lemma_nothing_is_no_frame(s.width);
            assert(body =~= Seq::<u16>::empty());
        }
    }
    lemma_hear(s, air, n - 1);
    assert(air.drop_last() =~= air.take(n - 1));
    assert(body.take(n - 2).push(air[n - 1]) =~= body);
}

/// A preamble with a clear chirp leads to the sync symbol, however the others lie; one without
/// does not.
pub proof fn law_one_chirp_is_enough(s: CssSearch, used: int)
    ensures
        align(s, ALIGN_CHIRPS as int, used).1 == (if used >= 1 {
            CssWish::Symbol(10)
        } else {
            CssWish::Lost
        }),
{
}

enum State {
    Align { k: usize, used: usize },
    Sync,
    Read { seen: usize, reader: FrameReader },
    Over,
}

/// Reads a frame behind the edge of its preamble, asking for one measurement after the other.
pub struct CssReader {
    edge: usize,
    recorded: usize,
    symbol: usize,
    sf: u32,
    state: State,
}

/// What a reader asks for.
#[derive(Debug, PartialEq, Eq)]
pub enum CssAsk {
    /// How the chirp of the preamble lies that is looked for from this sample on.
    Align(usize),
    /// The symbol with this number, counted from the first chirp of the preamble.
    Symbol(usize),
    /// Nothing: the bytes of the frame.
    Frame(Vec<u8>),
    /// Nothing: there is no frame.
    Lost,
}

impl CssAsk {
    pub open spec fn wish(self) -> CssWish {
        match self {
            CssAsk::Align(off) => CssWish::Align(off as int),
            CssAsk::Symbol(j) => CssWish::Symbol(j as int),
            CssAsk::Frame(bytes) => CssWish::Frame(bytes@),
            CssAsk::Lost => CssWish::Lost,
        }
    }
}

impl View for CssReader {
    type V = CssSearch;

    closed spec fn view(&self) -> CssSearch {
        CssSearch {
            edge: self.edge as int,
            recorded: self.recorded as int,
            symbol: self.symbol as int,
            width: self.sf as nat,
            stage: match self.state {
                State::Align { k, used } => CssStage::Align { k: k as int, used: used as int },
                State::Sync => CssStage::Sync,
                State::Read { seen, reader } => CssStage::Read { seen: reader.symbols() },
                State::Over => CssStage::Over,
            },
        }
    }
}

impl CssReader {
    pub closed spec fn wf(&self) -> bool {
        &&& self.edge <= self.recorded
        &&& self.recorded + 8 * self.symbol <= usize::MAX
        &&& 1 <= self.sf <= 16
        &&& match self.state {
            State::Align { k, used } => k < ALIGN_CHIRPS && used <= k,
            State::Read { seen, reader } => {
                &&& reader.wf()
                &&& reader.reading()
                &&& reader.width() == self.sf
                &&& reader.symbols().len() == seen
            },
            _ => true,
        }
    }

    /// Starts at the sample where the recording gets loud.
    pub fn start(layout: &CssLayout, edge: usize, recorded: usize) -> (r: (CssReader, CssAsk))
        requires
            layout.wf(),
            edge <= recorded,
            recorded + 8 * layout.symbol_len() <= usize::MAX,
        ensures
            r.0.wf(),
            (r.0@, r.1.wish()) == begin(
                edge as int,
                recorded as int,
                layout.symbol_len() as int,
                layout.width(),
            ),
    {
        proof {
            layout.lemma_layout();
        }
        let fresh: CssReader = CssReader {
            edge,
            recorded,
            symbol: layout.samples_per_symbol(),
            sf: layout.spreading_factor(),
            state: State::Over,
        };
        fresh.align(0, 0)
    }

    fn moved(self, state: State) -> (r: CssReader)
        ensures
            r == (CssReader {
                edge: self.edge,
                recorded: self.recorded,
                symbol: self.symbol,
                sf: self.sf,
                state,
            }),
    {
        CssReader {
            edge: self.edge,
            recorded: self.recorded,
            symbol: self.symbol,
            sf: self.sf,
            state,
        }
    }

    fn align(self, k: usize, used: usize) -> (r: (CssReader, CssAsk))
        requires
            self.wf(),
            k <= ALIGN_CHIRPS,
            used <= k,
        ensures
            r.0.wf(),
            (r.0@, r.1.wish()) == align(self@, k as int, used as int),
    {
        proof {
            assert((k + 1) * self.symbol <= 7 * self.symbol) by (nonlinear_arith)
                requires
                    k <= 6,
            ;
            assert((k + 1) * self.symbol >= 0) by (nonlinear_arith)
                requires
                    k >= 0,
            ;
        }
        let off: usize = self.edge + (k + 1) * self.symbol;
        if k < ALIGN_CHIRPS && off + self.symbol <= self.recorded {
            (self.moved(State::Align { k, used }), CssAsk::Align(off))
        } else if used < 1 {
            (self.moved(State::Over), CssAsk::Lost)
        } else {
            (self.moved(State::Sync), CssAsk::Symbol(PREAMBLE_UP + PREAMBLE_DOWN))
        }
    }

    /// A chirp of the preamble was looked at; `clear` says that it stood out.
    pub fn on_align(self, clear: bool) -> (r: (CssReader, CssAsk))
        requires
            self.wf(),
        ensures
            r.0.wf(),
            (r.0@, r.1.wish()) == after_align(self@, clear),
    {
        let (go, k, used): (bool, usize, usize) = match &self.state {
            State::Align { k, used } => (true, *k, *used),
            _ => (false, 0, 0),
        };
        if !go {
            return (self.moved(State::Over), CssAsk::Lost);
        }
        let more: usize = if clear {
            used + 1
        } else {
            used
        };
        self.align(k + 1, more)
    }

    /// The symbol asked for, or that it lies outside of the recording.
    pub fn on_symbol(self, heard: Option<u16>) -> (r: (CssReader, CssAsk))
        requires
            self.wf(),
        ensures
            r.0.wf(),
            (r.0@, r.1.wish()) == after_symbol(self@, heard),
    {
        let edge: usize = self.edge;
        let recorded: usize = self.recorded;
        let length: usize = self.symbol;
        let sf: u32 = self.sf;
        match (self.state, heard) {
            (State::Sync, Some(symbol)) => {
                if symbol == MAGIC_SYNC {
                    let reader: FrameReader = FrameReader::new(sf);
                    (
                        CssReader {
                            edge,
                            recorded,
                            symbol: length,
                            sf,
                            state: State::Read { seen: 0, reader },
                        },
                        CssAsk::Symbol(PREAMBLE_UP + PREAMBLE_DOWN + SYNC_SYMS),
                    )
                } else {
                    (
                        CssReader { edge, recorded, symbol: length, sf, state: State::Over },
                        CssAsk::Lost,
                    )
                }
            },
            (State::Read { seen, reader }, Some(symbol)) => {
                let mut reader: FrameReader = reader;
                proof {
                    reader.lemma_bound();
                }
                match reader.push(symbol) {
                    Reading::More => {
                        let now: usize = seen + 1;
                        (
                            CssReader {
                                edge,
                                recorded,
                                symbol: length,
                                sf,
                                state: State::Read { seen: now, reader },
                            },
                            CssAsk::Symbol(PREAMBLE_UP + PREAMBLE_DOWN + SYNC_SYMS + now),
                        )
                    },
                    Reading::Rejected => (
                        CssReader { edge, recorded, symbol: length, sf, state: State::Over },
                        CssAsk::Lost,
                    ),
                    Reading::Frame(bytes) => (
                        CssReader { edge, recorded, symbol: length, sf, state: State::Over },
                        CssAsk::Frame(bytes),
                    ),
                }
            },
            _ => (
                CssReader { edge, recorded, symbol: length, sf, state: State::Over },
                CssAsk::Lost,
            ),
        }
    }
}

/// What becomes of a search when chirps of the preamble are looked at one after the other.
pub open spec fn align_all(s: CssSearch, clears: Seq<bool>) -> (CssSearch, CssWish)
    recommends
        clears.len() > 0,
    decreases clears.len(),
{
    if clears.len() == 0 {
        (s, CssWish::Lost)
    } else {
        after_align(align_all(s, clears.drop_last()).0, clears.last())
    }
}

/// How many chirps were clear.
pub open spec fn clear_count(clears: Seq<bool>) -> int
    decreases clears.len(),
{
    if clears.len() == 0 {
        0
    } else {
        clear_count(clears.drop_last()) + (if clears.last() {
            1int
        } else {
            0int
        })
    }
}

proof fn lemma_clear_count(clears: Seq<bool>)
    ensures
        clear_count(clears) >= 0,
        clear_count(clears) >= 1 <==> clears.contains(true),
    decreases clears.len(),
{
    if clears.len() > 0 {
        let front = clears.drop_last();
        lemma_clear_count(front);
        assert(clears =~= front.push(clears.last()));
        if front.contains(true) {
            let i = choose|i: int| 0 <= i < front.len() && front[i];
            assert(clears[i]);
        }
        if clears.contains(true) && !clears.last() {
            let i = choose|i: int| 0 <= i < clears.len() && clears[i];
            assert(front[i]);
        }
        if clears.last() {
            assert(clears[clears.len() - 1]);
        }
    }
}

proof fn lemma_align_all(edge: int, recorded: int, symbol: int, width: nat, clears: Seq<bool>)
    requires
        symbol >= 0,
        clears.len() < 6,
        edge + (clears.len() + 2) * symbol <= recorded,
    ensures
        clears.len() > 0 ==> align_all(begin(edge, recorded, symbol, width).0, clears) == (
            CssSearch {
                edge,
                recorded,
                symbol,
                width,
                stage: CssStage::Align { k: clears.len() as int, used: clear_count(clears) },
            },
            CssWish::Align(edge + (clears.len() + 1) * symbol),
        ),
        begin(edge, recorded, symbol, width) == (
            CssSearch {
                edge,
                recorded,
                symbol,
                width,
                stage: CssStage::Align { k: 0, used: 0 },
            },
            CssWish::Align(edge + symbol),
        ),
    decreases clears.len(),
{
    let n = clears.len() as int;
    assert(edge + 2 * symbol <= recorded && (n + 2) * symbol == (n + 1) * symbol + symbol) by (nonlinear_arith)
        requires
            symbol >= 0,
            n >= 0,
            edge + (n + 2) * symbol <= recorded,
    ;
    assert(1 * symbol == symbol);
    if n > 0 {
        assert(edge + (n + 1) * symbol <= recorded) by (nonlinear_arith)
            requires
                symbol >= 0,
                edge + (n + 2) * symbol <= recorded,
        ;
        let front = clears.drop_last();
        lemma_align_all(edge, recorded, symbol, width, front);
        let s = align_all(begin(edge, recorded, symbol, width).0, front).0;
        assert(s.stage == (CssStage::Align { k: n - 1, used: clear_count(front) }));
        assert(align_all(begin(edge, recorded, symbol, width).0, clears) == after_align(
            s,
            clears.last(),
        ));
        assert(after_align(s, clears.last()) == align(s, n, clear_count(clears)));
        assert(s.edge + (n + 1) * s.symbol + s.symbol <= s.recorded);
    }
}

/// The chirps of a preamble are looked at one symbol after the other, from the second on, six of
/// them. In a recording that holds them, a single clear one leads to the sync symbol, which is the
/// eleventh of the frame; without any the frame is lost.
pub proof fn law_six_chirps_are_looked_at(
    edge: int,
    recorded: int,
    symbol: int,
    width: nat,
    clears: Seq<bool>,
)
    requires
        symbol >= 0,
        1 <= clears.len() <= 6,
        edge + 7 * symbol <= recorded,
    ensures
        ({
            let (s, wish) = align_all(begin(edge, recorded, symbol, width).0, clears);
            if clears.len() < 6 {
                wish == CssWish::Align(edge + (clears.len() + 1) * symbol)
            } else if clears.contains(true) {
                wish == CssWish::Symbol(10) && s.stage is Sync
            } else {
                wish is Lost
            }
        }),
        begin(edge, recorded, symbol, width).1 == CssWish::Align(edge + symbol),
{
    let n = clears.len() as int;
    lemma_clear_count(clears);
    if n < 6 {
        assert((n + 2) * symbol <= 7 * symbol) by (nonlinear_arith)
            requires
                symbol >= 0,
                n <= 5,
        ;
        lemma_align_all(edge, recorded, symbol, width, clears);
    } else {
        lemma_align_all(edge, recorded, symbol, width, clears.drop_last());
    }
}

/// The symbols behind the sync symbol are asked for one after the other, until the frame is read.
pub proof fn law_symbols_are_asked_in_turn(s: CssSearch, bytes: Seq<u8>, n: int)
    requires
        s.stage is Sync,
        1 <= s.width <= 16,
        reader::plausible(bytes.len()),
        1 <= n < reader::on_air(bytes, s.width, MAGIC_SYNC).len(),
    ensures
        hear_all(s, reader::on_air(bytes, s.width, MAGIC_SYNC).take(n)).1 == CssWish::Symbol(10 + n),
{
    let air = reader::on_air(bytes, s.width, MAGIC_SYNC);
    reader::law_frame_roundtrip(bytes, s.width, MAGIC_SYNC);
    assert(air[0] == MAGIC_SYNC);
    assert forall|m: int| 0 <= m < air.len() - 1 implies verdict(
        #[trigger] air.skip(1).take(m),
        s.width,
    ) is More by {}
    if n == 1 {
        assert(air.take(1).drop_last() =~= Seq::<u16>::empty());
        assert(air.take(1).last() == MAGIC_SYNC);
        assert(hear_all(s, air.take(1).drop_last()).0 == s);
        assert(hear_all(s, air.take(1)) == after_symbol(s, Some(MAGIC_SYNC)));
    } else {
        lemma_hear(s, air, n - 1);
        assert(air.take(n).drop_last() =~= air.take(n - 1));
        assert(air.take(n).last() == air[n - 1]);
        assert(air.skip(1).take(n - 2).push(air[n - 1]) =~= air.skip(1).take(n - 1));
        assert(verdict(air.skip(1).take(n - 1), s.width) is More);
        let t = hear_all(s, air.take(n - 1)).0;
        assert(hear_all(s, air.take(n)) == after_symbol(t, Some(air[n - 1])));
        assert(t.width == s.width);
    }
}

/// A frame whose sync symbol is another, or of which a symbol lies outside of the recording, is
/// lost.
pub proof fn law_what_loses_a_frame(s: CssSearch, heard: u16)
    ensures
        s.stage is Sync && heard != 0x2B ==> after_symbol(s, Some(heard)).1 is Lost,
        after_symbol(s, None).1 is Lost,
        s.stage is Sync && heard == 0x2B ==> after_symbol(s, Some(heard)).1 == CssWish::Symbol(11),
{
}

/// Where the recording ends before all chirps of the preamble, those before the end decide: a clear
/// one among them leads to the sync symbol, and without any the frame is lost.
pub proof fn law_a_cut_preamble(s: CssSearch, k: int, used: int)
    requires
        s.edge + (k + 1) * s.symbol + s.symbol > s.recorded,
    ensures
        align(s, k, used).1 == (if used >= 1 {
            CssWish::Symbol(10)
        } else {
            CssWish::Lost
        }),
{
}

} // verus!
