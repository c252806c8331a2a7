//! The seed almanac: remapped intervals, converters that try each interval
//! in order, and the chain of seven converters that takes a seed number to
//! its location number.
use vstd::prelude::*;

use crate::text::{
    line_list, parse_u32, spec_lines, spec_parse_u32, spec_split_once, spec_tokens, spec_trim,
    split_once_char, str_eq, tokens, trim_spaces,
};

verus! {

/// An almanac text that does not fit the expected shape.
#[derive(Debug, PartialEq, Eq, Clone, Copy, Structural)]
pub enum AlmanacError {
    BadFormat,
}

/// One remapped interval: sources in `[source, source + length)` shift to
/// start at `destination`.
#[derive(Debug, PartialEq, Eq, Clone, Copy, Structural)]
pub struct RangeMap {
    destination_range_start: usize,
    source_range_start: usize,
    range_length: usize,
}

impl RangeMap {
    pub closed spec fn spec_destination(self) -> int {
        self.destination_range_start as int
    }

    pub closed spec fn spec_source(self) -> int {
        self.source_range_start as int
    }

    pub closed spec fn spec_length(self) -> int {
        self.range_length as int
    }

    pub fn new(destination_range_start: usize, source_range_start: usize, range_length: usize) -> (r:
        RangeMap)
        ensures
            r.spec_destination() == destination_range_start,
            r.spec_source() == source_range_start,
            r.spec_length() == range_length,
    {
        RangeMap { destination_range_start, source_range_start, range_length }
    }

    /// Whether this interval remaps `value`.
    pub open spec fn spec_in_range(self, value: int) -> bool {
        self.spec_source() <= value < self.spec_source() + self.spec_length()
    }

    fn is_in_range(&self, value: usize) -> (r: bool)
        ensures
            r == self.spec_in_range(value as int),
    {
        value >= self.source_range_start && value - self.source_range_start < self.range_length
    }

    /// What this interval maps `value` to.
    pub open spec fn spec_convert(self, value: int) -> Option<usize> {
        if self.spec_in_range(value) && self.spec_destination() + (value - self.spec_source())
            <= usize::MAX {
            Some((self.spec_destination() + (value - self.spec_source())) as usize)
        } else {
            None
        }
    }

    /// The remapped value when `value` falls in this interval and the result
    /// fits the machine word; `None` otherwise.
    pub fn convert(&self, value: usize) -> (r: Option<usize>)
        ensures
            r == self.spec_convert(value as int),
    {
        if self.is_in_range(value) {
            let offset = value - self.source_range_start;
            self.destination_range_start.checked_add(offset)
        } else {
            None
        }
    }
}

/// A converter: intervals tried in order; the first that holds the value
/// remaps it, and a value no interval holds passes through unchanged.
#[derive(Debug, PartialEq, Eq)]
pub struct Converter(pub Vec<RangeMap>);

/// The converter's answer from interval `i` on.
pub open spec fn spec_convert_from(maps: Seq<RangeMap>, value: usize, i: int) -> usize
    decreases maps.len() - i,
{
    if i < 0 || i >= maps.len() {
        value
    } else {
        match maps[i].spec_convert(value as int) {
            Some(v) => v,
            None => spec_convert_from(maps, value, i + 1),
        }
    }
}

impl Converter {
    pub fn new(maps: Vec<RangeMap>) -> (r: Converter)
        ensures
            r.0@ == maps@,
    {
        Converter(maps)
    }

    /// The first interval holding `value` remaps it; otherwise `value` comes
    /// back unchanged.
    pub fn convert(&self, value: usize) -> (r: usize)
        ensures
            r == spec_convert_from(self.0@, value, 0),
    {
        let mut i: usize = 0;
        while i < self.0.len()
            invariant
                i <= self.0@.len(),
                spec_convert_from(self.0@, value, 0) == spec_convert_from(self.0@, value, i as int),
            decreases self.0@.len() - i,
        {
            match self.0[i].convert(value) {
                Some(v) => {
                    return v;
                },
                None => {},
            }
            i = i + 1;
        }
        value
    }
}

/// The almanac: the seed numbers and the seven conversion stages in order.
#[derive(Debug, PartialEq, Eq)]
pub struct Almanac {
    pub seeds: Vec<usize>,
    pub seed_to_soil_map: Converter,
    pub soil_to_fertilizer_map: Converter,
    pub fertilizer_to_water_map: Converter,
    pub water_to_light_map: Converter,
    pub light_to_temperature_map: Converter,
    pub temperature_to_humidity_map: Converter,
    pub humidity_to_location_map: Converter,
}

/// A seed's location: the seven converters applied in order.
pub open spec fn spec_location(a: Almanac, seed: usize) -> usize {
    let soil = spec_convert_from(a.seed_to_soil_map.0@, seed, 0);
    let fertilizer = spec_convert_from(a.soil_to_fertilizer_map.0@, soil, 0);
    let water = spec_convert_from(a.fertilizer_to_water_map.0@, fertilizer, 0);
    let light = spec_convert_from(a.water_to_light_map.0@, water, 0);
    let temperature = spec_convert_from(a.light_to_temperature_map.0@, light, 0);
    let humidity = spec_convert_from(a.temperature_to_humidity_map.0@, temperature, 0);
    spec_convert_from(a.humidity_to_location_map.0@, humidity, 0)
}

impl Almanac {
    /// Parses the almanac text: `Ok` exactly when the text spells an
    /// almanac, which the result then matches stage by stage; a parsed
    /// almanac holds at least one seed and one interval per converter.
    pub fn from_string(input: &str) -> (r: Result<Almanac, AlmanacError>)
        ensures
            r matches Ok(a) ==> almanac_populated(a),
            match spec_almanac(input@) {
                None => r matches Err(e) && e == AlmanacError::BadFormat,
                Some(m) => r matches Ok(a) && almanac_matches(a, m),
            },
    {
        parse_almanac(input)
    }

    fn convert_seed_to_location(&self, seed: usize) -> (r: usize)
        ensures
            r == spec_location(*self, seed),
    {
        let soil = self.seed_to_soil_map.convert(seed);
        let fertilizer = self.soil_to_fertilizer_map.convert(soil);
        let water = self.fertilizer_to_water_map.convert(fertilizer);
        let light = self.water_to_light_map.convert(water);
        let temperature = self.light_to_temperature_map.convert(light);
        let humidity = self.temperature_to_humidity_map.convert(temperature);
        self.humidity_to_location_map.convert(humidity)
    }

    /// The location of each seed, in seed order.
    pub fn calculate_seed_locations(&self) -> (r: Vec<usize>)
        ensures
            r@.len() == self.seeds@.len(),
            forall|i: int|
                0 <= i < r@.len() ==> #[trigger] r@[i] == spec_location(*self, self.seeds@[i]),
    {
        let mut out: Vec<usize> = Vec::new();
        let mut i: usize = 0;
        while i < self.seeds.len()
            invariant
                i <= self.seeds@.len(),
                out@.len() == i,
                forall|j: int|
                    0 <= j < i ==> #[trigger] out@[j] == spec_location(*self, self.seeds@[j]),
            decreases self.seeds@.len() - i,
        {
            out.push(self.convert_seed_to_location(self.seeds[i]));
            i = i + 1;
        }
        out
    }

    /// The end of the seed range starting at `start` with the given length,
    /// cut at the machine word.
    pub open spec fn spec_range_stop(start: usize, length: usize) -> int {
        if start + length <= usize::MAX {
            start + length
        } else {
            usize::MAX as int
        }
    }

    /// The locations of one `start, length` range's seeds, in order.
    pub open spec fn spec_range_block(self, start: usize, length: usize) -> Seq<usize> {
        Seq::new(
            (Self::spec_range_stop(start, length) - start) as nat,
            |t: int| spec_location(self, (start + t) as usize),
        )
    }

    /// The locations of the ranges from pair index `i` on.
    pub open spec fn spec_range_locations(self, i: int) -> Seq<usize>
        decreases self.seeds@.len() - i,
    {
        if i < 0 || self.seeds@.len() - i <= 1 {
            Seq::empty()
        } else {
            self.spec_range_block(self.seeds@[i], self.seeds@[i + 1]) + self.spec_range_locations(
                i + 2,
            )
        }
    }

    /// The locations of every seed in every range, reading the seed list as
    /// `start, length` pairs; a trailing unpaired number is passed over, and
    /// a range reaching past the machine word is cut there.
    #[verifier::loop_isolation(false)]
    pub fn calculate_seed_locations_with_seed_ranges(&self) -> (r: Vec<usize>)
        ensures
            r@ == self.spec_range_locations(0),
    {
        let mut out: Vec<usize> = Vec::new();
        let mut i: usize = 0;
        proof {
            assert(Seq::<usize>::empty() + self.spec_range_locations(0) =~= self
                .spec_range_locations(0));
        }
        while self.seeds.len() - i > 1
            invariant
                i <= self.seeds@.len(),
                self.spec_range_locations(0) == out@ + self.spec_range_locations(i as int),
            decreases self.seeds@.len() - i,
        {
            let start = self.seeds[i];
            let length = self.seeds[i + 1];
            let stop = match start.checked_add(length) {
                Some(e) => e,
                None => usize::MAX,
            };
            let ghost prefix = out@;
            let ghost block = self.spec_range_block(start, length);
            proof {
                assert(out@ =~= prefix + block.subrange(0, 0));
            }
            let mut seed = start;
            while seed < stop
                invariant
                    start <= seed <= stop,
                    stop == Self::spec_range_stop(start, length),
                    out@ == prefix + block.subrange(0, seed - start),
                decreases stop - seed,
            {
                out.push(self.convert_seed_to_location(seed));
                proof {
                    assert(block.subrange(0, seed - start + 1) =~= block.subrange(
                        0,
                        seed - start,
                    ).push(block[seed - start]));
                    assert(out@ =~= (prefix + block.subrange(0, seed - start)).push(
                        block[seed - start],
                    ));
                    assert((prefix + block.subrange(0, seed - start)).push(block[seed - start])
                        =~= prefix + block.subrange(0, seed - start + 1));
                }
                seed = seed + 1;
            }
            proof {
                assert(block.subrange(0, stop - start) =~= block);
                assert(self.spec_range_locations(i as int) == block + self.spec_range_locations(
                    i as int + 2,
                ));
                assert((out@) + self.spec_range_locations(i as int + 2) =~= prefix + (block + self
                    .spec_range_locations(i as int + 2)));
            }
            i = i + 2;
        }
        out
    }
}

fn parse_range_line(line: &str) -> (r: Option<RangeMap>)
    ensures
        r == spec_range_line(line@),
{
    let parts = tokens(line);
    proof {
        if parts@.len() >= 3 {
            assert(parts@.map_values(|p: String| p@)[0] == parts@[0]@);
            assert(parts@.map_values(|p: String| p@)[1] == parts@[1]@);
            assert(parts@.map_values(|p: String| p@)[2] == parts@[2]@);
        }
    }
    if parts.len() != 3 {
        return None;
    }
    let d = parse_u32(parts[0].as_str());
    let s = parse_u32(parts[1].as_str());
    let l = parse_u32(parts[2].as_str());
    match (d, s, l) {
        (Some(d), Some(s), Some(l)) => Some(
            RangeMap::new(d as usize, s as usize, l as usize),
        ),
        _ => None,
    }
}

/// Reads one converter section: a header line `NAME:`, then at least one
/// line of three numbers. Returns the converter and the next line index.
#[verifier::loop_isolation(false)]
fn parse_converter_section(lines: &Vec<String>, at: usize, name: &str) -> (r: Option<
    (Converter, usize),
>)
    requires
        at <= lines@.len(),
    ensures
        r matches Some(pair) ==> at <= pair.1 <= lines@.len() && pair.0.0@.len() >= 1,
        ({
            let views = lines@.map_values(|p: String| p@);
            match spec_section(views, at as int, name@) {
                None => r is None,
                Some(sec) => r matches Some(pair) && pair.0.0@ == sec.0 && pair.1 == sec.1,
            }
        }),
{
    let ghost views = lines@.map_values(|p: String| p@);
    let mut pos = at;
    // Skip blank lines before the header.
    while pos < lines.len() && lines[pos].as_str().unicode_len() == 0
        invariant
            at <= pos <= lines@.len(),
            spec_section(views, at as int, name@) == spec_section(views, pos as int, name@),
        decreases lines@.len() - pos,
    {
        proof {
            assert(views[pos as int] == lines@[pos as int]@);
        }
        pos = pos + 1;
    }
    if pos >= lines.len() {
        return None;
    }
    proof {
        assert(views[pos as int] == lines@[pos as int]@);
    }
    let header = trim_spaces(lines[pos].as_str());
    let (head_name, rest) = match split_once_char(header.as_str(), ':') {
        Some(pair) => pair,
        None => {
            return None;
        },
    };
    if !str_eq(head_name.as_str(), name) || rest.as_str().unicode_len() != 0 {
        return None;
    }
    let start_body = pos + 1;
    pos = pos + 1;
    let mut maps: Vec<RangeMap> = Vec::new();
    while pos < lines.len() && lines[pos].as_str().unicode_len() > 0
        invariant
            start_body <= pos <= lines@.len(),
            spec_intervals(views, start_body as int) == match spec_intervals(
                views,
                pos as int,
            ) {
                None => None::<(Seq<RangeMap>, int)>,
                Some(rest_iv) => Some((maps@ + rest_iv.0, rest_iv.1)),
            },
        decreases lines@.len() - pos,
    {
        proof {
            assert(views[pos as int] == lines@[pos as int]@);
        }
        let ghost old_maps = maps@;
        match parse_range_line(lines[pos].as_str()) {
            Some(m) => {
                maps.push(m);
                proof {
                    assert(maps@ =~= old_maps + seq![m]);
                    assert forall|rest_iv: (Seq<RangeMap>, int)|
                        true implies old_maps + (seq![m] + rest_iv.0) =~= maps@ + rest_iv.0 by {}
                }
            },
            None => {
                return None;
            },
        }
        pos = pos + 1;
    }
    proof {
        if pos < lines@.len() {
            assert(views[pos as int] == lines@[pos as int]@);
        }
        assert(spec_intervals(views, pos as int) == Some((Seq::<RangeMap>::empty(), pos as int)));
        assert(maps@ + Seq::<RangeMap>::empty() =~= maps@);
    }
    if maps.len() == 0 {
        return None;
    }
    Some((Converter(maps), pos))
}

/// Whether an almanac carries anything to work with: at least one seed and
/// at least one interval in each of its seven converters.
pub open spec fn almanac_populated(a: Almanac) -> bool {
    &&& a.seeds@.len() >= 1
    &&& a.seed_to_soil_map.0@.len() >= 1
    &&& a.soil_to_fertilizer_map.0@.len() >= 1
    &&& a.fertilizer_to_water_map.0@.len() >= 1
    &&& a.water_to_light_map.0@.len() >= 1
    &&& a.light_to_temperature_map.0@.len() >= 1
    &&& a.temperature_to_humidity_map.0@.len() >= 1
    &&& a.humidity_to_location_map.0@.len() >= 1
}

/// The spec-level shape of a parsed almanac: the seed numbers and the seven
/// conversion stages, leaves first.
pub struct AlmanacModel {
    pub seeds: Seq<usize>,
    pub stages: Seq<Seq<RangeMap>>,
}

/// The interval one line of three decimals spells (destination start, source
/// start, length in token order); `None` otherwise.
pub closed spec fn spec_range_line(line: Seq<char>) -> Option<RangeMap> {
    let toks = spec_tokens(line);
    if toks.len() != 3 {
        None
    } else {
        match (spec_parse_u32(toks[0]), spec_parse_u32(toks[1]), spec_parse_u32(toks[2])) {
            (Some(d), Some(src), Some(l)) => Some(
                RangeMap {
                    destination_range_start: d as usize,
                    source_range_start: src as usize,
                    range_length: l as usize,
                },
            ),
            _ => None,
        }
    }
}

/// The intervals read from line `at` until a blank line or the end, with the
/// stopping line; `None` at the first line that is not three decimals.
pub open spec fn spec_intervals(lines: Seq<Seq<char>>, at: int) -> Option<(Seq<RangeMap>, int)>
    decreases lines.len() - at,
{
    if at < 0 || at >= lines.len() || lines[at].len() == 0 {
        Some((Seq::empty(), at))
    } else {
        match spec_range_line(lines[at]) {
            None => None,
            Some(m) => match spec_intervals(lines, at + 1) {
                None => None,
                Some(rest) => Some((seq![m] + rest.0, rest.1)),
            },
        }
    }
}

/// One converter section from line `at` on: blank lines, then the header
/// `NAME:`, then at least one interval line; `None` when the shape does not
/// fit. The second component is the line after the section.
pub open spec fn spec_section(lines: Seq<Seq<char>>, at: int, name: Seq<char>) -> Option<
    (Seq<RangeMap>, int),
>
    decreases lines.len() - at,
{
    if at < 0 || at >= lines.len() {
        None
    } else if lines[at].len() == 0 {
        spec_section(lines, at + 1, name)
    } else {
        match spec_split_once(spec_trim(lines[at]), ':') {
            None => None,
            Some(pair) => if pair.0 == name && pair.1.len() == 0 {
                match spec_intervals(lines, at + 1) {
                    None => None,
                    Some(body) => if body.0.len() == 0 {
                        None
                    } else {
                        Some(body)
                    },
                }
            } else {
                None
            },
        }
    }
}

/// The seed numbers of the first line: `seeds:` then at least one decimal;
/// `None` when the shape does not fit.
pub open spec fn spec_seed_values(toks: Seq<Seq<char>>, n: int) -> Option<Seq<usize>>
    decreases n,
{
    if n <= 0 {
        Some(Seq::empty())
    } else {
        match (spec_seed_values(toks, n - 1), spec_parse_u32(toks[n - 1])) {
            (Some(prev), Some(v)) => Some(prev.push(v as usize)),
            _ => None,
        }
    }
}

/// The almanac an input text spells: the `seeds:` line, then the seven named
/// converter sections in their fixed order; `None` when any part fails.
pub open spec fn spec_almanac(s: Seq<char>) -> Option<AlmanacModel> {
    let lines = spec_lines(s);
    if lines.len() == 0 {
        None
    } else {
        match spec_split_once(lines[0], ':') {
            None => None,
            Some(pair) => if spec_trim(pair.0) != "seeds"@ || spec_tokens(pair.1).len() == 0 {
                None
            } else {
                match spec_seed_values(
                    spec_tokens(pair.1),
                    spec_tokens(pair.1).len() as int,
                ) {
                    None => None,
                    Some(seeds) => match spec_section(lines, 1, "seed-to-soil map"@) {
                        None => None,
                        Some(s1) => match spec_section(lines, s1.1, "soil-to-fertilizer map"@) {
                            None => None,
                            Some(s2) => match spec_section(
                                lines,
                                s2.1,
                                "fertilizer-to-water map"@,
                            ) {
                                None => None,
                                Some(s3) => match spec_section(lines, s3.1, "water-to-light map"@) {
                                    None => None,
                                    Some(s4) => match spec_section(
                                        lines,
                                        s4.1,
                                        "light-to-temperature map"@,
                                    ) {
                                        None => None,
                                        Some(s5) => match spec_section(
                                            lines,
                                            s5.1,
                                            "temperature-to-humidity map"@,
                                        ) {
                                            None => None,
                                            Some(s6) => match spec_section(
                                                lines,
                                                s6.1,
                                                "humidity-to-location map"@,
                                            ) {
                                                None => None,
                                                Some(s7) => Some(
                                                    AlmanacModel {
                                                        seeds,
                                                        stages: seq![
                                                            s1.0,
                                                            s2.0,
                                                            s3.0,
                                                            s4.0,
                                                            s5.0,
                                                            s6.0,
                                                            s7.0,
                                                        ],
                                                    },
                                                ),
                                            },
                                        },
                                    },
                                },
                            },
                        },
                    },
                }
            },
        }
    }
}

/// An almanac matches its model when each stage's intervals agree.
pub open spec fn almanac_matches(a: Almanac, m: AlmanacModel) -> bool {
    &&& a.seeds@ == m.seeds
    &&& m.stages.len() == 7
    &&& a.seed_to_soil_map.0@ == m.stages[0]
    &&& a.soil_to_fertilizer_map.0@ == m.stages[1]
    &&& a.fertilizer_to_water_map.0@ == m.stages[2]
    &&& a.water_to_light_map.0@ == m.stages[3]
    &&& a.light_to_temperature_map.0@ == m.stages[4]
    &&& a.temperature_to_humidity_map.0@ == m.stages[5]
    &&& a.humidity_to_location_map.0@ == m.stages[6]
}

/// A seed's location under a model: the seven stages applied in order.
pub open spec fn spec_location_model(m: AlmanacModel, seed: usize) -> usize {
    let soil = spec_convert_from(m.stages[0], seed, 0);
    let fertilizer = spec_convert_from(m.stages[1], soil, 0);
    let water = spec_convert_from(m.stages[2], fertilizer, 0);
    let light = spec_convert_from(m.stages[3], water, 0);
    let temperature = spec_convert_from(m.stages[4], light, 0);
    let humidity = spec_convert_from(m.stages[5], temperature, 0);
    spec_convert_from(m.stages[6], humidity, 0)
}

/// The least location among the first `n` seeds.
pub open spec fn spec_min_location(m: AlmanacModel, n: int) -> usize
    decreases n,
{
    if n <= 1 {
        spec_location_model(m, m.seeds[0])
    } else {
        let prev = spec_min_location(m, n - 1);
        let cur = spec_location_model(m, m.seeds[n - 1]);
        if cur < prev {
            cur
        } else {
            prev
        }
    }
}

/// The least location any listed seed reaches; zero without seeds.
pub open spec fn spec_lowest_location(m: AlmanacModel) -> usize {
    if m.seeds.len() == 0 {
        0
    } else {
        spec_min_location(m, m.seeds.len() as int)
    }
}

/// The least location is one of the first `n` seeds' locations and below
/// them all.
pub proof fn lemma_min_location_bounds(m: AlmanacModel, n: int)
    requires
        1 <= n <= m.seeds.len(),
    ensures
        exists|i: int| 0 <= i < n && spec_min_location(m, n) == spec_location_model(
            m,
            #[trigger] m.seeds[i],
        ),
        forall|i: int|
            0 <= i < n ==> spec_min_location(m, n) <= spec_location_model(
                m,
                #[trigger] m.seeds[i],
            ),
    decreases n,
{
    if n == 1 {
        assert(spec_min_location(m, n) == spec_location_model(m, m.seeds[0]));
    } else {
        lemma_min_location_bounds(m, n - 1);
    }
}

/// Under a matching almanac the exec-level location agrees with the model's.
pub proof fn lemma_location_matches(a: Almanac, m: AlmanacModel, seed: usize)
    requires
        almanac_matches(a, m),
    ensures
        spec_location(a, seed) == spec_location_model(m, seed),
{
}

/// The locations of one range's seeds under a model.
pub open spec fn spec_model_range_block(m: AlmanacModel, start: usize, length: usize) -> Seq<
    usize,
> {
    Seq::new(
        (Almanac::spec_range_stop(start, length) - start) as nat,
        |t: int| spec_location_model(m, (start + t) as usize),
    )
}

/// The locations of the model's ranges from pair index `i` on.
pub open spec fn spec_model_range_locations(m: AlmanacModel, i: int) -> Seq<usize>
    decreases m.seeds.len() - i,
{
    if i < 0 || m.seeds.len() - i <= 1 {
        Seq::empty()
    } else {
        spec_model_range_block(m, m.seeds[i], m.seeds[i + 1]) + spec_model_range_locations(
            m,
            i + 2,
        )
    }
}

/// Under a matching almanac the range locations agree with the model's.
pub proof fn lemma_range_locations_match(a: Almanac, m: AlmanacModel, i: int)
    requires
        almanac_matches(a, m),
        0 <= i,
    ensures
        a.spec_range_locations(i) == spec_model_range_locations(m, i),
    decreases a.seeds@.len() - i,
{
    if a.seeds@.len() - i > 1 {
        lemma_range_locations_match(a, m, i + 2);
        assert(a.spec_range_block(a.seeds@[i], a.seeds@[i + 1]) =~= spec_model_range_block(
            m,
            m.seeds[i],
            m.seeds[i + 1],
        )) by {
            assert forall|t: int|
                0 <= t < a.spec_range_block(a.seeds@[i], a.seeds@[i + 1]).len() implies #[trigger] a
                .spec_range_block(a.seeds@[i], a.seeds@[i + 1])[t] == spec_model_range_block(
                m,
                m.seeds[i],
                m.seeds[i + 1],
            )[t] by {
                lemma_location_matches(a, m, (a.seeds@[i] + t) as usize);
            }
        }
    }
}

/// A token that does not read as a decimal fails the whole seed list.
proof fn lemma_seed_values_stuck(toks: Seq<Seq<char>>, i: int, n: int)
    requires
        0 <= i < n,
        spec_parse_u32(toks[i]) is None,
    ensures
        spec_seed_values(toks, n) is None,
    decreases n,
{
    if i < n - 1 {
        lemma_seed_values_stuck(toks, i, n - 1);
    }
}

/// Parses the full almanac: the `seeds:` line, then the seven named
/// converter sections in their fixed order, each with at least one interval
/// line. `Ok` exactly when the text spells an almanac, which the result then
/// matches stage by stage; anything else is `BadFormat`.
#[verifier::loop_isolation(false)]
pub fn parse_almanac(input: &str) -> (r: Result<Almanac, AlmanacError>)
    ensures
        r matches Ok(a) ==> almanac_populated(a),
        match spec_almanac(input@) {
            None => r matches Err(e) && e == AlmanacError::BadFormat,
            Some(m) => r matches Ok(a) && almanac_matches(a, m),
        },
{
    let lines = line_list(input);
    let ghost views = lines@.map_values(|p: String| p@);
    if lines.len() == 0 {
        return Err(AlmanacError::BadFormat);
    }
    proof {
        assert(views[0] == lines@[0]@);
    }
    let (head, tail) = match split_once_char(lines[0].as_str(), ':') {
        Some(pair) => pair,
        None => {
            return Err(AlmanacError::BadFormat);
        },
    };
    if !str_eq(trim_spaces(head.as_str()).as_str(), "seeds") {
        return Err(AlmanacError::BadFormat);
    }
    let seed_tokens = tokens(tail.as_str());
    let ghost token_views = seed_tokens@.map_values(|p: String| p@);
    if seed_tokens.len() == 0 {
        return Err(AlmanacError::BadFormat);
    }
    let mut seeds: Vec<usize> = Vec::new();
    let mut i: usize = 0;
    while i < seed_tokens.len()
        invariant
            seeds@.len() == i <= seed_tokens@.len(),
            spec_seed_values(token_views, i as int) == Some(seeds@),
        decreases seed_tokens@.len() - i,
    {
        proof {
            assert(token_views[i as int] == seed_tokens@[i as int]@);
        }
        match parse_u32(seed_tokens[i].as_str()) {
            Some(v) => seeds.push(v as usize),
            None => {
                proof {
                    lemma_seed_values_stuck(token_views, i as int, token_views.len() as int);
                }
                return Err(AlmanacError::BadFormat);
            },
        }
        i = i + 1;
    }
    let mut at: usize = 1;
    let (seed_to_soil_map, next) = match parse_converter_section(&lines, at, "seed-to-soil map") {
        Some(pair) => pair,
        None => {
            return Err(AlmanacError::BadFormat);
        },
    };
    at = next;
    let (soil_to_fertilizer_map, next) = match parse_converter_section(
        &lines,
        at,
        "soil-to-fertilizer map",
    ) {
        Some(pair) => pair,
        None => {
            return Err(AlmanacError::BadFormat);
        },
    };
    at = next;
    let (fertilizer_to_water_map, next) = match parse_converter_section(
        &lines,
        at,
        "fertilizer-to-water map",
    ) {
        Some(pair) => pair,
        None => {
            return Err(AlmanacError::BadFormat);
        },
    };
    at = next;
    let (water_to_light_map, next) = match parse_converter_section(
        &lines,
        at,
        "water-to-light map",
    ) {
        Some(pair) => pair,
        None => {
            return Err(AlmanacError::BadFormat);
        },
    };
    at = next;
    let (light_to_temperature_map, next) = match parse_converter_section(
        &lines,
        at,
        "light-to-temperature map",
    ) {
        Some(pair) => pair,
        None => {
            return Err(AlmanacError::BadFormat);
        },
    };
    at = next;
    let (temperature_to_humidity_map, next) = match parse_converter_section(
        &lines,
        at,
        "temperature-to-humidity map",
    ) {
        Some(pair) => pair,
        None => {
            return Err(AlmanacError::BadFormat);
        },
    };
    at = next;
    let (humidity_to_location_map, _next) = match parse_converter_section(
        &lines,
        at,
        "humidity-to-location map",
    ) {
        Some(pair) => pair,
        None => {
            return Err(AlmanacError::BadFormat);
        },
    };
    Ok(
        Almanac {
            seeds,
            seed_to_soil_map,
            soil_to_fertilizer_map,
            fertilizer_to_water_map,
            water_to_light_map,
            light_to_temperature_map,
            temperature_to_humidity_map,
            humidity_to_location_map,
        },
    )
}

} // verus!
