use mbrotli::greedy::split::{BlockSplitter, ContextBlockSplitter, Evidence, Outcome};
use mbrotli::shared::block_split::{BlockSplit, MAX_NUMBER_OF_BLOCK_TYPES};

/// How much closer the block before last has to be.
const SECOND_LAST_ADVANTAGE: f64 = 20.0;

/// What a histogram's symbols cost under the best code for it, at least a bit each.
fn bits_entropy(counts: &[u32]) -> f64 {
    let total: f64 = counts.iter().map(|&c| f64::from(c)).sum();
    let mut bits = 0.0;
    for &count in counts {
        if count > 0 {
            bits += f64::from(count) * (total / f64::from(count)).log2();
        }
    }
    if bits < total {
        total
    } else {
        bits
    }
}

/// A splitter and the prices it is told to go by.
struct Priced {
    core: ContextBlockSplitter,
    threshold: f64,
    last: Vec<f64>,
    second: Vec<f64>,
}

impl Priced {
    fn new(alphabet: usize, contexts: usize, min_block: usize, threshold: f64) -> Self {
        Priced {
            core: ContextBlockSplitter::new(alphabet, contexts, min_block),
            threshold,
            last: vec![0.0; contexts],
            second: vec![0.0; contexts],
        }
    }

    /// The entropies of the gathered block, and of it together with each of the
    /// last two.
    fn weigh(&self) -> (Evidence, Vec<f64>, Vec<f64>, Vec<f64>) {
        let contexts = self.core.num_contexts;
        let gathered = self.core.split.num_types * contexts;
        let mut own = Vec::new();
        let mut with_last = Vec::new();
        let mut with_second = Vec::new();
        let mut diff = [0.0f64; 2];
        for context in 0..contexts {
            let entropy = bits_entropy(&self.core.histograms[gathered + context].data);
            if self.core.split.num_types > 0 {
                let last = bits_entropy(&self.core.combined(self.core.last_type, context).data);
                let second =
                    bits_entropy(&self.core.combined(self.core.second_last_type, context).data);
                diff[0] += last - entropy - self.last[context];
                diff[1] += second - entropy - self.second[context];
                with_last.push(last);
                with_second.push(second);
            }
            own.push(entropy);
        }
        let evidence = Evidence {
            apart_from_last: diff[0] > self.threshold,
            apart_from_second: diff[1] > self.threshold,
            second_closer: diff[1] < diff[0] - SECOND_LAST_ADVANTAGE,
        };
        (evidence, own, with_last, with_second)
    }

    fn settle(&mut self, outcome: Outcome, own: Vec<f64>, last: Vec<f64>, second: Vec<f64>) {
        match outcome {
            Outcome::First => {
                self.last = own.clone();
                self.second = own;
            }
            Outcome::NewType => {
                self.second = std::mem::replace(&mut self.last, own);
            }
            Outcome::SecondLast => {
                self.second = std::mem::replace(&mut self.last, second);
            }
            Outcome::Merged => {
                self.last = last;
                if self.core.split.num_types == 1 {
                    self.second = self.last.clone();
                }
            }
        }
    }

    fn add_symbol(&mut self, symbol: usize, context: usize) {
        if self.core.add_symbol(symbol, context) {
            let (evidence, own, last, second) = self.weigh();
            let outcome = self.core.close_block(evidence);
            self.settle(outcome, own, last, second);
        }
    }

    fn finish(&mut self) {
        let (evidence, _, _, _) = self.weigh();
        self.core.finish_block(evidence);
    }
}

/// Runs a plain splitter over `symbols` and returns the finished split.
fn split_literals(symbols: &[u8]) -> Priced {
    let mut splitter = Priced::new(256, 1, 512, 400.0);
    for &symbol in symbols {
        splitter.add_symbol(usize::from(symbol), 0);
    }
    splitter.finish();
    splitter
}

#[test]
fn a_uniform_stream_stays_one_block() {
    let symbols: Vec<u8> = (0..4000u32).map(|i| (i % 7) as u8).collect();
    let splitter = split_literals(&symbols);
    assert_eq!(splitter.core.split.num_types, 1);
    assert_eq!(splitter.core.split.num_blocks, 1);
    assert_eq!(splitter.core.histograms.len(), 1);
}

#[test]
fn block_lengths_sum_to_the_symbol_count() {
    for length in [0usize, 1, 511, 512, 513, 5000, 20_000] {
        let symbols: Vec<u8> = (0..length)
            .map(|i| if i % 3000 < 1500 { (i % 5) as u8 } else { 200 })
            .collect();
        let splitter = split_literals(&symbols);
        let total: u64 = splitter.core.split.lengths.iter().map(|&l| u64::from(l)).sum();
        // The first block is padded up to the minimum block size, so a
        // short stream reports at least that many symbols.
        assert!(total >= length as u64);
        assert_eq!(
            splitter.core.split.types.len(),
            splitter.core.split.num_blocks,
            "length {length}"
        );
        assert_eq!(splitter.core.split.lengths.len(), splitter.core.split.num_blocks);
    }
}

#[test]
fn a_stream_that_changes_alphabet_is_split() {
    let mut symbols = vec![b'a'; 8000];
    symbols.extend((0..8000u32).map(|i| (i % 251) as u8).collect::<Vec<u8>>());
    symbols.extend(vec![b'a'; 8000]);
    let splitter = split_literals(&symbols);
    assert!(
        splitter.core.split.num_types > 1,
        "the splitter kept one type for a stream that changes character"
    );
    assert_eq!(splitter.core.histograms.len(), splitter.core.split.num_types);
}

#[test]
fn every_block_type_is_within_the_type_count() {
    let mut symbols = Vec::new();
    for round in 0..40u32 {
        let filler = if round % 2 == 0 { 3u8 } else { 250 };
        symbols.extend(std::iter::repeat_n(filler, 700));
    }
    let splitter = split_literals(&symbols);
    assert!(
        splitter
            .core
            .split
            .types
            .iter()
            .all(|&t| usize::from(t) < splitter.core.split.num_types)
    );
    assert!(splitter.core.split.num_types <= MAX_NUMBER_OF_BLOCK_TYPES);
}

#[test]
fn the_context_splitter_keeps_one_histogram_set_per_type() {
    let mut splitter = Priced::new(256, 3, 512, 400.0);
    for index in 0..6000usize {
        splitter.add_symbol(index % 251, index % 3);
    }
    splitter.finish();
    assert_eq!(splitter.core.histograms.len(), splitter.core.split.num_types * 3);
    assert!(splitter.core.split.num_types >= 1);
}

#[test]
fn the_context_splitter_separates_a_changing_stream() {
    let mut splitter = Priced::new(256, 2, 512, 400.0);
    for index in 0..8000usize {
        splitter.add_symbol(b'a' as usize, index % 2);
    }
    for index in 0..8000usize {
        splitter.add_symbol(index % 251, index % 2);
    }
    for index in 0..8000usize {
        splitter.add_symbol(b'a' as usize, index % 2);
    }
    splitter.finish();
    assert!(splitter.core.split.num_types > 1);
    assert_eq!(splitter.core.histograms.len(), splitter.core.split.num_types * 2);
}

#[test]
fn a_context_splitter_caps_types_by_the_context_count() {
    let splitter = ContextBlockSplitter::new(256, 13, 512);
    assert_eq!(splitter.max_block_types, MAX_NUMBER_OF_BLOCK_TYPES / 13);
}

#[test]
fn a_fresh_split_reserves_room_for_every_block() {
    let mut split = BlockSplit::default();
    split.reserve(5);
    assert_eq!(split.num_blocks, 5);
    assert_eq!(split.types.len(), 5);
    assert_eq!(split.lengths.len(), 5);
}

#[test]
fn the_evidence_decides_what_becomes_of_a_block() {
    let apart = Evidence {
        apart_from_last: true,
        apart_from_second: true,
        second_closer: false,
    };
    let like_second = Evidence {
        apart_from_last: true,
        apart_from_second: false,
        second_closer: true,
    };
    let like_last = Evidence {
        apart_from_last: false,
        apart_from_second: false,
        second_closer: false,
    };
    let mut splitter = BlockSplitter::new(4, 2);
    assert!(!splitter.add_symbol(0));
    assert!(splitter.add_symbol(0));
    assert_eq!(splitter.close_block(apart), Outcome::First);
    splitter.add_symbol(1);
    splitter.add_symbol(1);
    assert_eq!(splitter.close_block(apart), Outcome::NewType);
    splitter.add_symbol(0);
    splitter.add_symbol(0);
    assert_eq!(splitter.close_block(like_second), Outcome::SecondLast);
    splitter.add_symbol(0);
    assert_eq!(splitter.finish_block(like_last), Outcome::Merged);
    assert_eq!(splitter.core.split.types, [0, 1, 0]);
    assert_eq!(splitter.core.split.lengths, [2, 2, 4]);
    assert_eq!(splitter.core.histograms[0].data, [5, 0, 0, 0]);
    assert_eq!(splitter.core.histograms[1].data, [0, 2, 0, 0]);
}
