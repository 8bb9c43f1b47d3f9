//! Mixing the games of several files.
use crate::error::{invalid, Error, ErrorKind};
use crate::format::FILE_HEADER_SIZE;
use crate::{error, sums};
use vstd::prelude::*;

verus! {

/// Into how many sections a single file is cut, at most.
pub const SECTIONS: u64 = 32;

/// A piece of a file that holds whole games.
#[derive(Clone, Copy, Debug, PartialEq, Eq, Structural)]
pub struct Section {
    /// Which of the files it belongs to.
    pub input: usize,
    pub start: u64,
    pub bytes: u64,
}

/// The error for `message`, or the value.
pub open spec fn within<T>(ok: bool, value: T, message: Seq<char>) -> Result<
    T,
    (ErrorKind, Seq<char>),
> {
    if ok {
        Ok(value)
    } else {
        Err(error::bad(message))
    }
}

/// How many bytes of games a file of `file_size` bytes holds.
pub fn data_size(file_size: u64) -> (r: Result<u64, Error>)
    ensures
        error::agrees(
            r,
            within(
                file_size >= FILE_HEADER_SIZE,
                (file_size - FILE_HEADER_SIZE) as u64,
                "truncated file header"@,
            ),
        ),
{
    if file_size >= FILE_HEADER_SIZE as u64 {
        Ok(file_size - FILE_HEADER_SIZE as u64)
    } else {
        Err(invalid("truncated file header"))
    }
}

/// How many bytes there are together.
pub fn combined_size(remaining: u64, bytes: u64) -> (r: Result<u64, Error>)
    ensures
        error::agrees(
            r,
            within(
                remaining + bytes <= u64::MAX,
                (remaining + bytes) as u64,
                "combined input size overflows u64"@,
            ),
        ),
{
    match remaining.checked_add(bytes) {
        Some(sum) => Ok(sum),
        None => Err(invalid("combined input size overflows u64")),
    }
}

/// How long the file with all games is.
pub fn output_size(remaining: u64) -> (r: Result<u64, Error>)
    ensures
        error::agrees(
            r,
            within(
                remaining + FILE_HEADER_SIZE <= u64::MAX,
                (remaining + FILE_HEADER_SIZE) as u64,
                "output size overflows u64"@,
            ),
        ),
{
    match remaining.checked_add(FILE_HEADER_SIZE as u64) {
        Some(sum) => Ok(sum),
        None => Err(invalid("output size overflows u64")),
    }
}

/// A search for sections in a file.
pub struct Scan {
    pub input: usize,
    /// How long a section must be at least, but for the last.
    pub section_size: u64,
    /// Where the present section starts.
    pub start: u64,
    /// Where the next game starts.
    pub offset: u64,
    pub sections: Vec<Section>,
}

/// The model of a `Scan`.
#[verifier::ext_equal]
pub struct Survey {
    pub input: usize,
    pub section_size: int,
    pub start: int,
    pub offset: int,
    pub sections: Seq<Section>,
}

impl View for Scan {
    type V = Survey;

    open spec fn view(&self) -> Survey {
        Survey {
            input: self.input,
            section_size: self.section_size as int,
            start: self.start as int,
            offset: self.offset as int,
            sections: self.sections@,
        }
    }
}

/// How long the sections of a file with `bytes` bytes of games are at least.
pub open spec fn section_size_of(bytes: int) -> int {
    if bytes == 0 {
        1
    } else {
        (bytes + 31) / 32
    }
}

/// Where section `i` ends and the next begins, when the last ends at `end`.
pub open spec fn section_end(sections: Seq<Section>, i: int, end: int) -> int {
    if i + 1 < sections.len() {
        sections[i + 1].start as int
    } else {
        end
    }
}

/// Whether the sections of a file follow each other without gaps from `start` to `end`, and none is
/// empty.
pub open spec fn tiles(sections: Seq<Section>, start: int, end: int) -> bool {
    &&& sections.len() == 0 ==> start == end
    &&& sections.len() > 0 ==> sections[0].start == start
    &&& forall|i: int|
        0 <= i < sections.len() ==> (#[trigger] sections[i]).bytes > 0 && sections[i].start
            + sections[i].bytes == section_end(sections, i, end)
}

impl Survey {
    /// Whether the search is in a state that it can be in.
    pub open spec fn wf(self) -> bool {
        &&& FILE_HEADER_SIZE <= self.start <= self.offset <= u64::MAX
        &&& self.section_size > 0
        &&& self.offset - self.start < self.section_size
        &&& tiles(self.sections, FILE_HEADER_SIZE as int, self.start)
        &&& self.sections.len() * self.section_size <= self.start - FILE_HEADER_SIZE
    }

    /// The section from the present start to `end`.
    pub open spec fn section(self, end: int) -> Section {
        Section { input: self.input, start: self.start as u64, bytes: (end - self.start) as u64 }
    }

    /// The search after a game of `size` bytes.
    pub open spec fn after(self, size: int) -> Survey {
        let end = self.offset + size;
        if end - self.start >= self.section_size {
            Survey {
                start: end,
                offset: end,
                sections: self.sections.push(self.section(end)),
                ..self
            }
        } else {
            Survey { offset: end, ..self }
        }
    }

    /// All sections, when there are no more games.
    pub open spec fn all(self) -> Seq<Section> {
        if self.offset > self.start {
            self.sections.push(self.section(self.offset))
        } else {
            self.sections
        }
    }
}

impl Scan {
    /// A search in file `input`, which holds `bytes` bytes of games.
    pub fn new(input: usize, bytes: u64) -> (r: Scan)
        ensures
            r@ == (Survey {
                input,
                section_size: section_size_of(bytes as int),
                start: FILE_HEADER_SIZE as int,
                offset: FILE_HEADER_SIZE as int,
                sections: seq![],
            }),
            r@.wf(),
    {
        let section_size = if bytes == 0 {
            1
        } else {
            (bytes - 1) / SECTIONS + 1
        };
        let r = Scan {
            input,
            section_size,
            start: FILE_HEADER_SIZE as u64,
            offset: FILE_HEADER_SIZE as u64,
            sections: Vec::new(),
        };
        assert(r@.sections =~= seq![]);
        r
    }

    /// Takes a game of `size` bytes.
    pub fn game(&mut self, size: u64) -> (r: Result<(), Error>)
        requires
            old(self)@.wf(),
        ensures
            final(self)@.wf(),
            error::agrees(
                r,
                within(
                    old(self)@.offset + size <= u64::MAX,
                    (),
                    "file size overflows u64"@,
                ),
            ),
            final(self)@ == if old(self)@.offset + size <= u64::MAX {
                old(self)@.after(size as int)
            } else {
                old(self)@
            },
    {
        let end = match self.offset.checked_add(size) {
            Some(end) => end,
            None => {
                return Err(invalid("file size overflows u64"));
            },
        };
        let ghost before = self@;
        self.offset = end;
        if end - self.start >= self.section_size {
            let section = Section { input: self.input, start: self.start, bytes: end - self.start };
            self.sections.push(section);
            self.start = end;
            proof {
                lemma_tiles_push(before.sections, section, FILE_HEADER_SIZE as int, before.start);
                assert((before.sections.len() + 1) * before.section_size == before.sections.len()
                    * before.section_size + before.section_size) by (nonlinear_arith);
            }
        }
        Ok(())
    }

    /// Ends the search in a file of `file_size` bytes.
    pub fn finish(self, file_size: u64) -> (r: Result<Vec<Section>, Error>)
        requires
            self@.wf(),
        ensures
            match r {
                Ok(sections) => {
                    &&& self@.offset == file_size
                    &&& sections@ == self@.all()
                    &&& tiles(sections@, FILE_HEADER_SIZE as int, file_size as int)
                },
                Err(e) => self@.offset != file_size && e@ == error::bad(
                    "file size changed while scanning"@,
                ),
            },
    {
        if self.offset != file_size {
            return Err(invalid("file size changed while scanning"));
        }
        let mut sections = self.sections;
        if self.offset > self.start {
            let section = Section {
                input: self.input,
                start: self.start,
                bytes: self.offset - self.start,
            };
            sections.push(section);
            proof {
                lemma_tiles_push(
                    self@.sections,
                    section,
                    FILE_HEADER_SIZE as int,
                    self@.start,
                );
            }
        }
        Ok(sections)
    }
}

proof fn lemma_tiles_push(sections: Seq<Section>, section: Section, start: int, end: int)
    requires
        tiles(sections, start, end),
        section.start == end,
        section.bytes > 0,
    ensures
        tiles(sections.push(section), start, end + section.bytes),
{
    let all = sections.push(section);
    assert forall|i: int| 0 <= i < all.len() implies (#[trigger] all[i]).bytes > 0 && all[i].start
        + all[i].bytes == section_end(all, i, end + section.bytes) by {
        if i < sections.len() {
            assert(all[i] == sections[i]);
            assert(sections[i].start + sections[i].bytes == section_end(sections, i, end));
        }
    }
}

/// Sections are as long as 32 of them need to be, and no longer, but never empty.
pub proof fn law_section_size(bytes: int)
    requires
        bytes >= 0,
    ensures
        bytes == 0 ==> section_size_of(bytes) == 1,
        bytes > 0 ==> 32 * (section_size_of(bytes) - 1) < bytes <= 32 * section_size_of(bytes),
{
}

/// A section ends with the game that makes it long enough.
pub proof fn law_sections_end_when_long_enough(s: Survey, size: int)
    requires
        s.wf(),
        size >= 0,
        s.offset + size <= u64::MAX,
    ensures
        ({
            let n = s.after(size);
            let grown = s.offset + size - s.start;
            &&& n.offset == s.offset + size
            &&& grown < s.section_size ==> n.start == s.start && n.sections == s.sections
            &&& grown >= s.section_size ==> {
                &&& n.start == n.offset
                &&& n.sections.len() == s.sections.len() + 1
                &&& n.sections.last().start == s.start
                &&& n.sections.last().bytes == grown
                &&& n.sections.last().input == s.input
                &&& n.sections.drop_last() == s.sections
            }
        }),
{
    let n = s.after(size);
    if s.offset + size - s.start >= s.section_size {
        assert(n.sections.drop_last() =~= s.sections);
    }
}

/// A file is cut into no more than 32 sections.
pub proof fn law_few_sections(s: Survey, bytes: int)
    requires
        s.wf(),
        bytes >= 0,
        s.section_size == section_size_of(bytes),
        s.offset == FILE_HEADER_SIZE + bytes,
    ensures
        s.all().len() <= SECTIONS,
{
    let n = s.sections.len() as int;
    let size = s.section_size;
    assert(bytes <= 32 * size);
    if s.offset > s.start {
        assert(n * size < 32 * size);
        assert(n < 32) by (nonlinear_arith)
            requires
                n * size < 32 * size,
                size > 0,
        ;
    } else {
        assert(n * size <= 32 * size);
        assert(n <= 32) by (nonlinear_arith)
            requires
                n * size <= 32 * size,
                size > 0,
        ;
    }
}

/// The search after the first `k` of some games, by their sizes.
pub open spec fn scanned(s: Survey, sizes: Seq<u64>, k: int) -> Survey
    decreases k,
{
    if k <= 0 {
        s
    } else {
        scanned(s, sizes, k - 1).after(sizes[k - 1] as int)
    }
}

/// Whether one of the first `k` games starts at `offset`, or the next.
pub open spec fn between_games(sizes: Seq<u64>, k: int, offset: int) -> bool {
    exists|j: int| 0 <= j <= k && offset == FILE_HEADER_SIZE + #[trigger] sums::total(sizes, j)
}

/// Every section begins where a game begins.
pub proof fn law_sections_begin_with_games(s: Survey, sizes: Seq<u64>, k: int)
    requires
        s.wf(),
        s.sections.len() == 0,
        s.start == FILE_HEADER_SIZE,
        s.offset == FILE_HEADER_SIZE,
        0 <= k <= sizes.len(),
        FILE_HEADER_SIZE + sums::total(sizes, k) <= u64::MAX,
    ensures
        ({
            let after = scanned(s, sizes, k);
            &&& after.offset == FILE_HEADER_SIZE + sums::total(sizes, k)
            &&& between_games(sizes, k, after.start)
            &&& forall|i: int|
                0 <= i < after.sections.len() ==> between_games(
                    sizes,
                    k,
                    (#[trigger] after.sections[i]).start as int,
                )
        }),
    decreases k,
{
    if k > 0 {
        sums::lemma_total_grows(sizes, 0, k - 1);
        law_sections_begin_with_games(s, sizes, k - 1);
        let before = scanned(s, sizes, k - 1);
        let after = scanned(s, sizes, k);
        assert forall|o: int| between_games(sizes, k - 1, o) implies #[trigger] between_games(
            sizes,
            k,
            o,
        ) by {
            let j = choose|j: int|
                0 <= j <= k - 1 && o == FILE_HEADER_SIZE + #[trigger] sums::total(sizes, j);
            assert(0 <= j <= k && o == FILE_HEADER_SIZE + sums::total(sizes, j));
        }
        assert(between_games(sizes, k, before.start));
        assert(after.offset == FILE_HEADER_SIZE + sums::total(sizes, k));
        assert(between_games(sizes, k, after.offset));
        lemma_start_in_range(s, sizes, k - 1);
        assert forall|i: int| 0 <= i < after.sections.len() implies between_games(
            sizes,
            k,
            (#[trigger] after.sections[i]).start as int,
        ) by {
            if i < before.sections.len() {
                assert(after.sections[i] == before.sections[i]);
                assert(between_games(sizes, k - 1, before.sections[i].start as int));
            } else {
                assert(after.sections[i].start == before.start);
            }
        }
    } else {
        assert(between_games(sizes, 0, s.start)) by {
            assert(sums::total(sizes, 0) == 0);
        }
    }
}

proof fn lemma_start_in_range(s: Survey, sizes: Seq<u64>, k: int)
    requires
        0 <= s.start <= s.offset,
        0 <= k <= sizes.len(),
    ensures
        0 <= scanned(s, sizes, k).start <= scanned(s, sizes, k).offset,
    decreases k,
{
    if k > 0 {
        lemma_start_in_range(s, sizes, k - 1);
    }
}

/// `fastrand::u64`: some number of the range. Which one is left to chance.
#[verifier::external_body]
fn random_below(n: u64) -> (r: u64)
    requires
        n > 0,
    ensures
        r < n,
{
    fastrand::u64(0..n)
}

/// Whether the byte with number `choice`, counted through all streams, belongs to stream `i`.
pub open spec fn belongs(sizes: Seq<u64>, choice: int, i: int) -> bool {
    &&& 0 <= i < sizes.len()
    &&& sums::total(sizes, i) <= choice < sums::total(sizes, i + 1)
}

/// Whether drawing a number below `n` at random may give `choice`.
pub closed spec fn drawn(n: u64, choice: u64) -> bool {
    call_ensures(random_below, (n,), choice)
}

/// How many bytes each of some sections holds.
pub open spec fn sizes_of(sections: Seq<Section>) -> Seq<u64> {
    sections.map_values(|s: Section| s.bytes)
}

/// The section that a whole file is, which holds `bytes` bytes of games. Without games there is
/// none.
pub fn whole_file(input: usize, bytes: u64) -> (r: Option<Section>)
    ensures
        r == if bytes != 0 {
            Some(Section { input, start: FILE_HEADER_SIZE as u64, bytes })
        } else {
            None
        },
{
    if bytes != 0 {
        Some(Section { input, start: FILE_HEADER_SIZE as u64, bytes })
    } else {
        None
    }
}

/// What is left of the streams whose games are mixed.
pub struct Mixer {
    /// How many bytes each stream still holds.
    pub sizes: Vec<u64>,
    /// How many bytes all of them hold.
    pub remaining: u64,
    /// How many games were taken.
    pub games: u64,
}

/// The model of a `Mixer`.
#[verifier::ext_equal]
pub struct Mixture {
    pub sizes: Seq<u64>,
    pub remaining: int,
    pub games: int,
}

impl View for Mixer {
    type V = Mixture;

    open spec fn view(&self) -> Mixture {
        Mixture {
            sizes: self.sizes@,
            remaining: self.remaining as int,
            games: self.games as int,
        }
    }
}

/// `sizes` without stream `i`, the last stream in its place.
pub open spec fn without(sizes: Seq<u64>, i: int) -> Seq<u64> {
    sizes.update(i, sizes.last()).drop_last()
}

impl Mixture {
    /// Whether no stream is empty, and the streams hold what remains.
    pub open spec fn wf(self) -> bool {
        &&& self.remaining == sums::total(self.sizes, self.sizes.len() as int)
        &&& forall|i: int| 0 <= i < self.sizes.len() ==> #[trigger] self.sizes[i] > 0
    }

    /// What is left when a game of `size` bytes was taken from stream `i`. An empty stream goes
    /// away.
    pub open spec fn after(self, i: int, size: int) -> Mixture {
        let left = self.sizes[i] - size;
        Mixture {
            sizes: if left == 0 {
                without(self.sizes, i)
            } else {
                self.sizes.update(i, left as u64)
            },
            remaining: self.remaining - size,
            games: self.games + 1,
        }
    }
}

/// Every byte belongs to one stream, and a stream has as many bytes as it is long: a byte that is
/// chosen at random belongs to a stream with a chance that its length decides.
pub proof fn law_one_stream(sizes: Seq<u64>, choice: int, i: int, j: int)
    requires
        belongs(sizes, choice, i),
    ensures
        belongs(sizes, choice, j) ==> i == j,
        sums::total(sizes, i + 1) - sums::total(sizes, i) == sizes[i],
        0 <= choice < sums::total(sizes, sizes.len() as int),
{
    sums::lemma_total_grows(sizes, 0, i);
    sums::lemma_total_grows(sizes, i + 1, sizes.len() as int);
    if belongs(sizes, choice, j) {
        if i < j {
            sums::lemma_total_grows(sizes, i + 1, j);
        } else if j < i {
            sums::lemma_total_grows(sizes, j + 1, i);
        }
    }
}

/// Taking a game keeps the sizes right: no stream is empty, and the streams hold what remains.
pub proof fn law_mixing_keeps_sizes(m: Mixture, i: int, size: int)
    requires
        m.wf(),
        0 <= i < m.sizes.len(),
        0 <= size <= m.sizes[i],
    ensures
        m.after(i, size).wf(),
        m.after(i, size).remaining >= 0,
{
    let n = m.sizes.len() as int;
    let left = (m.sizes[i] - size) as u64;
    sums::lemma_total_update(m.sizes, i, left, n);
    if left == 0 {
        let last = m.sizes.last();
        let moved = m.sizes.update(i, last);
        let after = without(m.sizes, i);
        sums::lemma_total_update(m.sizes, i, last, n);
        sums::lemma_total_prefix(after, moved, n - 1);
        sums::lemma_total_grows(after, 0, n - 1);
        assert(moved[n - 1] == last);
        assert forall|k: int| 0 <= k < after.len() implies #[trigger] after[k] > 0 by {
            assert(m.sizes[k] > 0);
            assert(m.sizes[n - 1] > 0);
        }
    } else {
        sums::lemma_total_grows(m.sizes.update(i, left), 0, n);
        assert forall|k: int| 0 <= k < n implies #[trigger] m.sizes.update(i, left)[k] > 0 by {
            assert(m.sizes[k] > 0);
        }
    }
}

/// When nothing remains, there are no streams.
pub proof fn law_nothing_left(m: Mixture)
    requires
        m.wf(),
    ensures
        m.remaining == 0 <==> m.sizes.len() == 0,
{
    if m.sizes.len() > 0 {
        let n = m.sizes.len() as int;
        sums::lemma_total_grows(m.sizes, 0, n - 1);
        assert(m.sizes[n - 1] > 0);
    }
}

impl Mixer {
    /// A mixer of the streams that `sections` are.
    pub fn new(sections: &Vec<Section>) -> (r: Result<Mixer, Error>)
        requires
            forall|i: int| 0 <= i < sections@.len() ==> (#[trigger] sections@[i]).bytes > 0,
        ensures
            ({
                let sizes = sizes_of(sections@);
                let all = sums::total(sizes, sizes.len() as int);
                match r {
                    Ok(m) => all <= u64::MAX && m@ == (Mixture { sizes, remaining: all, games: 0 })
                        && m@.wf(),
                    Err(e) => all > u64::MAX && e@ == error::bad(
                        "combined input size overflows u64"@,
                    ),
                }
            }),
    {
        let ghost all = sizes_of(sections@);
        let mut sizes: Vec<u64> = Vec::new();
        let mut remaining: u64 = 0;
        let mut i: usize = 0;
        while i < sections.len()
            invariant
                i <= sections@.len(),
                all == sizes_of(sections@),
                sizes@ == all.take(i as int),
                remaining == sums::total(all, i as int),
            decreases sections@.len() - i,
        {
            let bytes = sections[i].bytes;
            assert(all[i as int] == bytes);
            proof {
                sums::lemma_total_grows(all, i + 1, all.len() as int);
            }
            remaining =
            match combined_size(remaining, bytes) {
                Ok(sum) => sum,
                Err(e) => {
                    return Err(e);
                },
            };
            sizes.push(bytes);
            i += 1;
            assert(all.take(i as int) =~= all.take(i - 1).push(bytes));
        }
        assert(all.take(i as int) =~= all);
        assert forall|k: int| 0 <= k < all.len() implies #[trigger] all[k] > 0 by {
            assert(sections@[k].bytes > 0);
        }
        Ok(Mixer { sizes, remaining, games: 0 })
    }

    /// The stream to which the byte with number `choice` belongs.
    pub fn locate(&self, choice: u64) -> (r: usize)
        requires
            self@.wf(),
            choice < self@.remaining,
        ensures
            belongs(self@.sizes, choice as int, r as int),
    {
        let mut choice = choice;
        let ghost chosen = choice as int;
        let mut index: usize = 0;
        proof {
            sums::lemma_total_grows(self.sizes@, 0, self.sizes@.len() as int);
        }
        while index < self.sizes.len() && choice >= self.sizes[index]
            invariant
                index <= self.sizes@.len(),
                chosen == sums::total(self.sizes@, index as int) + choice,
                chosen < sums::total(self.sizes@, self.sizes@.len() as int),
            decreases self.sizes@.len() - index,
        {
            choice = choice - self.sizes[index];
            index += 1;
        }
        index
    }

    /// Chooses the stream of the next game: that of a byte drawn at random from all that remain.
    /// Which byte is drawn is left to chance.
    pub fn pick(&self) -> (r: usize)
        requires
            self@.wf(),
            self@.remaining > 0,
        ensures
            r < self@.sizes.len(),
            exists|choice: u64|
                {
                    &&& #[trigger] drawn(self@.remaining as u64, choice)
                    &&& belongs(self@.sizes, choice as int, r as int)
                },
    {
        let choice = random_below(self.remaining);
        let r = self.locate(choice);
        assert(drawn(self@.remaining as u64, choice));
        r
    }

    /// Takes a game of `size` bytes from stream `index`. The answer says whether the stream is now
    /// empty; then the last stream takes its place.
    pub fn take(&mut self, index: usize, size: u64) -> (r: Result<bool, Error>)
        requires
            old(self)@.wf(),
            index < old(self)@.sizes.len(),
            old(self)@.games < u64::MAX,
        ensures
            final(self)@.wf(),
            error::agrees(
                r,
                within(
                    size <= old(self)@.sizes[index as int],
                    size == old(self)@.sizes[index as int],
                    "game crosses a section boundary"@,
                ),
            ),
            final(self)@ == if size <= old(self)@.sizes[index as int] {
                old(self)@.after(index as int, size as int)
            } else {
                old(self)@
            },
    {
        let bytes = self.sizes[index];
        if size > bytes {
            return Err(invalid("game crosses a section boundary"));
        }
        proof {
            law_mixing_keeps_sizes(self@, index as int, size as int);
        }
        let ghost before = self@;
        let left = bytes - size;
        self.remaining = self.remaining - size;
        self.games = self.games + 1;
        if left == 0 {
            self.sizes.swap_remove(index);
            assert(self@ =~= before.after(index as int, size as int));
            Ok(true)
        } else {
            self.sizes.set(index, left);
            Ok(false)
        }
    }
}

} // verus!
