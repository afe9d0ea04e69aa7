use vstd::prelude::*;

use crate::layout::{fits, holds, lemma_field_value, place, push_zero_word, read_bits, well_laid, Field};
use crate::word::{u64_bit, Word256};

verus! {

/// `v < 2^8` or `v < 2^16` means the value has no bit from that position on.
proof fn lemma_fits(v: u64, width: int)
    requires
        width == 8 ==> v < 0x100,
        width == 16 ==> v < 0x10000,
        width == 8 || width == 16,
    ensures
        fits(v, width),
{
    assert forall|j: int| width <= j implies !#[trigger] u64_bit(v, j) by {
        if 0 <= j < 64 {
            let t = j as u64;
            if width == 8 {
                assert(v < 0x100 && 8 <= t < 64 ==> (v >> t) & 1u64 == 0u64) by (bit_vector);
            } else {
                assert(v < 0x10000 && 16 <= t < 64 ==> (v >> t) & 1u64 == 0u64) by (bit_vector);
            }
        }
    }
}

/// The number of (advice count, challenge count) phase pairs that are packed.
pub open spec fn num_phases(num_advices: Seq<usize>, num_challenges: Seq<usize>) -> int {
    if num_advices.len() <= num_challenges.len() {
        num_advices.len() as int
    } else {
        num_challenges.len() as int
    }
}

/// Word of the `i`-th 24-bit entry when the first word starts with an 8-bit header.
pub open spec fn entry_word(i: int) -> int {
    i / 10
}

/// Bit offset of the `i`-th 24-bit entry when the first word starts with an 8-bit header:
/// ten entries per word, the first word's entries after its header.
pub open spec fn entry_offset(i: int) -> int {
    24 * (i % 10) + if i < 10 {
        8int
    } else {
        0int
    }
}

/// Number of words taken by `n` such entries.
pub open spec fn entry_words_len(n: int) -> int {
    if n <= 10 {
        1
    } else {
        (n + 9) / 10
    }
}

/// The fields of the packed advice/challenge data: for phase `i`, its advice count times
/// 0x40 in 16 bits and then its challenge count in 8 bits; last, the number of words in
/// the low byte of the first word.
pub open spec fn challenge_layout(num_advices: Seq<usize>, num_challenges: Seq<usize>) -> Seq<
    Field,
> {
    let n = num_phases(num_advices, num_challenges);
    Seq::new(
        (2 * n + 1) as nat,
        |x: int|
            if x == 2 * n {
                Field { word: 0, offset: 0, width: 8, value: entry_words_len(n) as u64 }
            } else if x % 2 == 0 {
                Field {
                    word: entry_word(x / 2),
                    offset: entry_offset(x / 2),
                    width: 16,
                    value: (num_advices[x / 2] * 0x40) as u64,
                }
            } else {
                Field {
                    word: entry_word(x / 2),
                    offset: entry_offset(x / 2) + 16,
                    width: 8,
                    value: num_challenges[x / 2] as u64,
                }
            },
    )
}

/// The inputs the packing accepts: each advice count times 0x40 fits 16 bits, each
/// challenge count fits 8 bits, and the number of words fits 8 bits.
pub open spec fn challenge_data_packable(
    num_advices: Seq<usize>,
    num_challenges: Seq<usize>,
) -> bool {
    let n = num_phases(num_advices, num_challenges);
    &&& forall|i: int| 0 <= i < n ==> #[trigger] num_advices[i] * 0x40 < 0x10000
    &&& forall|i: int| 0 <= i < n ==> #[trigger] num_challenges[i] < 0x100
    &&& entry_words_len(n) < 0x100
}

/// Packs the per-phase advice and challenge counts into words: the low byte of the first
/// word holds the number of words, then each phase takes 24 bits (16 bits of advice count
/// times 0x40, 8 bits of challenge count), a phase never straddling two words.
pub fn pack_challenge_data(num_advices: &[usize], num_challenges: &[usize]) -> (words: Vec<
    Word256,
>)
    requires
        challenge_data_packable(num_advices@, num_challenges@),
    ensures
        words.len() == entry_words_len(num_phases(num_advices@, num_challenges@)),
        holds(words@, challenge_layout(num_advices@, num_challenges@)),
        well_laid(challenge_layout(num_advices@, num_challenges@)),
{
    let ghost layout = challenge_layout(num_advices@, num_challenges@);
    let n: usize = if num_advices.len() <= num_challenges.len() {
        num_advices.len()
    } else {
        num_challenges.len()
    };
    let mut words: Vec<Word256> = Vec::new();
    push_zero_word(&mut words, Ghost(Seq::empty()));
    let mut bit_counter: usize = 8;
    let mut last_idx: usize = 0;
    let mut i: usize = 0;
    while i < n
        invariant
            n == num_phases(num_advices@, num_challenges@),
            challenge_data_packable(num_advices@, num_challenges@),
            layout == challenge_layout(num_advices@, num_challenges@),
            i <= n,
            words.len() == last_idx + 1,
            holds(words@, layout.take(2 * i)),
            i <= 10 ==> last_idx == 0 && bit_counter == 8 + 24 * i,
            i > 10 ==> last_idx == entry_word(i - 1) && bit_counter == 24 * ((i - 1) % 10 + 1),
        decreases n - i,
    {
        let ghost fields = layout.take(2 * i);
        if bit_counter + 24 > 256 {
            last_idx += 1;
            push_zero_word(&mut words, Ghost(fields));
            bit_counter = 0;
        }
        assert(last_idx == entry_word(i as int) && bit_counter == entry_offset(i as int));
        let advices_value: usize = num_advices[i] * 0x40;
        assert(num_advices@[i as int] * 0x40 < 0x10000);
        assert(num_challenges@[i as int] < 0x100);
        let ghost fa = layout[2 * i];
        let ghost fc = layout[2 * i + 1];
        assert(fa == Field {
            word: last_idx as int,
            offset: bit_counter as int,
            width: 16,
            value: advices_value as u64,
        });
        place(&mut words, Ghost(fields), last_idx, bit_counter, Ghost(16), advices_value as u64);
        assert(fields.push(fa) == layout.take(2 * i + 1));
        assert(fc == Field {
            word: last_idx as int,
            offset: bit_counter + 16,
            width: 8,
            value: num_challenges@[i as int] as u64,
        });
        place(
            &mut words,
            Ghost(layout.take(2 * i + 1)),
            last_idx,
            bit_counter + 16,
            Ghost(8),
            num_challenges[i] as u64,
        );
        assert(layout.take(2 * i + 1).push(fc) == layout.take(2 * i + 2));
        bit_counter += 24;
        i += 1;
    }
    let len = words.len();
    assert(len == entry_words_len(n as int));
    place(&mut words, Ghost(layout.take(2 * n)), 0, 0, Ghost(8), len as u64);
    assert(layout.take(2 * n).push(layout[2 * n as int]) =~= layout);
    proof {
        lemma_challenge_layout_well_laid(num_advices@, num_challenges@);
    }
    words
}

proof fn lemma_challenge_layout_well_laid(num_advices: Seq<usize>, num_challenges: Seq<usize>)
    requires
        challenge_data_packable(num_advices, num_challenges),
    ensures
        well_laid(challenge_layout(num_advices, num_challenges)),
{
    let layout = challenge_layout(num_advices, num_challenges);
    let n = num_phases(num_advices, num_challenges);
    assert forall|x: int| 0 <= x < layout.len() implies fits(
        #[trigger] layout[x].value,
        layout[x].width,
    ) by {
        if x == 2 * n {
            lemma_fits(entry_words_len(n) as u64, 8);
        } else if x % 2 == 0 {
            assert(num_advices[x / 2] * 0x40 < 0x10000);
            lemma_fits((num_advices[x / 2] * 0x40) as u64, 16);
        } else {
            assert(num_challenges[x / 2] < 0x100);
            lemma_fits(num_challenges[x / 2] as u64, 8);
        }
    }
}

/// The number of (scale, instance count) pairs that are packed.
pub open spec fn num_scaled(scales: Seq<i32>, num_instances: Seq<usize>) -> int {
    if scales.len() <= num_instances.len() {
        scales.len() as int
    } else {
        num_instances.len() as int
    }
}

/// Word of the `i`-th 24-bit entry when the first word starts with a 24-bit header.
pub open spec fn scaled_entry_word(i: int) -> int {
    if i < 9 {
        0
    } else {
        1 + (i - 9) / 10
    }
}

/// Bit offset of the `i`-th 24-bit entry when the first word starts with a 24-bit header:
/// nine entries in the first word, ten in each further word.
pub open spec fn scaled_entry_offset(i: int) -> int {
    if i < 9 {
        24 + 24 * i
    } else {
        24 * ((i - 9) % 10)
    }
}

/// Number of words taken by `n` such entries.
pub open spec fn scaled_words_len(n: int) -> int {
    if n <= 9 {
        1
    } else {
        1 + (n - 9 + 9) / 10
    }
}

/// The fields of the packed rescaling data: for the `i`-th scaled group, its instance count
/// times 0x20 in 16 bits and then its scale in 8 bits; last, the header of the first word:
/// the number of words (bits 0..8), the decimals (bits 8..16) and the hash count times 0x20
/// (bits 16..24).
pub open spec fn rescaling_layout(
    scales: Seq<i32>,
    num_instances: Seq<usize>,
    decimals: usize,
    hash_count: usize,
) -> Seq<Field> {
    let n = num_scaled(scales, num_instances);
    Seq::new(
        (2 * n + 3) as nat,
        |x: int|
            if x == 2 * n {
                Field { word: 0, offset: 0, width: 8, value: scaled_words_len(n) as u64 }
            } else if x == 2 * n + 1 {
                Field { word: 0, offset: 8, width: 8, value: decimals as u64 }
            } else if x == 2 * n + 2 {
                Field { word: 0, offset: 16, width: 8, value: (hash_count * 0x20) as u64 }
            } else if x % 2 == 0 {
                Field {
                    word: scaled_entry_word(x / 2),
                    offset: scaled_entry_offset(x / 2),
                    width: 16,
                    value: (num_instances[x / 2] * 0x20) as u64,
                }
            } else {
                Field {
                    word: scaled_entry_word(x / 2),
                    offset: scaled_entry_offset(x / 2) + 16,
                    width: 8,
                    value: scales[x / 2] as u64,
                }
            },
    )
}

/// The inputs the rescaling packing accepts: each scale in `0..0x100`, each instance count
/// times 0x20 below 0x10000, the number of words and the decimals below 0x100, and fewer than
/// four hashes.
pub open spec fn rescaling_data_packable(
    scales: Seq<i32>,
    num_instances: Seq<usize>,
    decimals: usize,
    hash_count: usize,
) -> bool {
    let n = num_scaled(scales, num_instances);
    &&& forall|i: int| 0 <= i < n ==> 0 <= #[trigger] scales[i] < 0x100
    &&& forall|i: int| 0 <= i < n ==> #[trigger] num_instances[i] * 0x20 < 0x10000
    &&& scaled_words_len(n) < 0x100
    &&& decimals < 0x100
    &&& hash_count < 4
}

/// Packs the rescaling data into words: the first word starts with the number of words,
/// the decimals and the hash count times 0x20 (8 bits each), then each scaled group takes
/// 24 bits (16 bits of instance count times 0x20, 8 bits of scale), a group never
/// straddling two words.
pub fn pack_rescaling_data(
    scales: &[i32],
    num_instances: &[usize],
    decimals: usize,
    hash_count: usize,
) -> (words: Vec<Word256>)
    requires
        rescaling_data_packable(scales@, num_instances@, decimals, hash_count),
    ensures
        words.len() == scaled_words_len(num_scaled(scales@, num_instances@)),
        holds(words@, rescaling_layout(scales@, num_instances@, decimals, hash_count)),
        well_laid(rescaling_layout(scales@, num_instances@, decimals, hash_count)),
{
    let ghost layout = rescaling_layout(scales@, num_instances@, decimals, hash_count);
    let n: usize = if scales.len() <= num_instances.len() {
        scales.len()
    } else {
        num_instances.len()
    };
    let mut words: Vec<Word256> = Vec::new();
    push_zero_word(&mut words, Ghost(Seq::empty()));
    let mut bit_counter: usize = 24;
    let mut last_idx: usize = 0;
    let mut i: usize = 0;
    while i < n
        invariant
            n == num_scaled(scales@, num_instances@),
            rescaling_data_packable(scales@, num_instances@, decimals, hash_count),
            layout == rescaling_layout(scales@, num_instances@, decimals, hash_count),
            i <= n,
            words.len() == last_idx + 1,
            holds(words@, layout.take(2 * i)),
            i <= 9 ==> last_idx == 0 && bit_counter == 24 + 24 * i,
            i > 9 ==> last_idx == scaled_entry_word(i - 1) && bit_counter == 24 * ((i - 10) % 10
                + 1),
        decreases n - i,
    {
        let ghost fields = layout.take(2 * i);
        if bit_counter + 24 > 256 {
            last_idx += 1;
            push_zero_word(&mut words, Ghost(fields));
            bit_counter = 0;
        }
        assert(last_idx == scaled_entry_word(i as int) && bit_counter == scaled_entry_offset(
            i as int,
        ));
        let instances_value: usize = num_instances[i] * 0x20;
        let scale: i32 = scales[i];
        assert(num_instances@[i as int] * 0x20 < 0x10000);
        assert(0 <= scales@[i as int] < 0x100);
        let ghost fa = layout[2 * i];
        let ghost fc = layout[2 * i + 1];
        assert(fa == Field {
            word: last_idx as int,
            offset: bit_counter as int,
            width: 16,
            value: instances_value as u64,
        });
        place(&mut words, Ghost(fields), last_idx, bit_counter, Ghost(16), instances_value as u64);
        assert(fields.push(fa) == layout.take(2 * i + 1));
        assert(fc == Field {
            word: last_idx as int,
            offset: bit_counter + 16,
            width: 8,
            value: scale as u64,
        });
        place(&mut words, Ghost(layout.take(2 * i + 1)), last_idx, bit_counter + 16, Ghost(8), scale as u64);
        assert(layout.take(2 * i + 1).push(fc) == layout.take(2 * i + 2));
        bit_counter += 24;
        i += 1;
    }
    let len = words.len();
    assert(len == scaled_words_len(n as int));
    place(&mut words, Ghost(layout.take(2 * n)), 0, 0, Ghost(8), len as u64);
    assert(layout.take(2 * n).push(layout[2 * n as int]) =~= layout.take(2 * n + 1));
    place(&mut words, Ghost(layout.take(2 * n + 1)), 0, 8, Ghost(8), decimals as u64);
    assert(layout.take(2 * n + 1).push(layout[2 * n + 1]) =~= layout.take(2 * n + 2));
    place(&mut words, Ghost(layout.take(2 * n + 2)), 0, 16, Ghost(8), (hash_count * 0x20) as u64);
    assert(layout.take(2 * n + 2).push(layout[2 * n + 2]) =~= layout);
    proof {
        lemma_rescaling_layout_well_laid(scales@, num_instances@, decimals, hash_count);
    }
    words
}

proof fn lemma_rescaling_layout_well_laid(
    scales: Seq<i32>,
    num_instances: Seq<usize>,
    decimals: usize,
    hash_count: usize,
)
    requires
        rescaling_data_packable(scales, num_instances, decimals, hash_count),
    ensures
        well_laid(rescaling_layout(scales, num_instances, decimals, hash_count)),
{
    let layout = rescaling_layout(scales, num_instances, decimals, hash_count);
    let n = num_scaled(scales, num_instances);
    assert forall|x: int| 0 <= x < layout.len() implies fits(
        #[trigger] layout[x].value,
        layout[x].width,
    ) by {
        if x == 2 * n {
            lemma_fits(scaled_words_len(n) as u64, 8);
        } else if x == 2 * n + 1 {
            lemma_fits(decimals as u64, 8);
        } else if x == 2 * n + 2 {
            lemma_fits((hash_count * 0x20) as u64, 8);
        } else if x % 2 == 0 {
            assert(num_instances[x / 2] * 0x20 < 0x10000);
            lemma_fits((num_instances[x / 2] * 0x20) as u64, 16);
        } else {
            assert(0 <= scales[x / 2] < 0x100);
            lemma_fits(scales[x / 2] as u64, 8);
        }
    }
}

/// Reading packed advice/challenge data back: the first byte gives the number of words, and
/// each phase's two fields give its advice count times 0x40 and its challenge count.
#[verifier::spinoff_prover]
pub proof fn lemma_challenge_data_reads_back(
    num_advices: Seq<usize>,
    num_challenges: Seq<usize>,
    words: Seq<Word256>,
)
    requires
        challenge_data_packable(num_advices, num_challenges),
        holds(words, challenge_layout(num_advices, num_challenges)),
    ensures
        read_bits(words[0], 0, 8) == entry_words_len(num_phases(num_advices, num_challenges)),
        forall|i: int|
            0 <= i < num_phases(num_advices, num_challenges) ==> read_bits(
                words[entry_word(i)],
                entry_offset(i),
                16,
            ) == #[trigger] num_advices[i] * 0x40 && read_bits(
                words[entry_word(i)],
                entry_offset(i) + 16,
                8,
            ) == num_challenges[i],
{
    let layout = challenge_layout(num_advices, num_challenges);
    let n = num_phases(num_advices, num_challenges);
    lemma_challenge_layout_well_laid(num_advices, num_challenges);
    lemma_field_value(words, layout, 2 * n);
    assert forall|i: int| 0 <= i < n implies read_bits(
        words[entry_word(i)],
        entry_offset(i),
        16,
    ) == #[trigger] num_advices[i] * 0x40 && read_bits(
        words[entry_word(i)],
        entry_offset(i) + 16,
        8,
    ) == num_challenges[i] by {
        lemma_field_value(words, layout, 2 * i);
        lemma_field_value(words, layout, 2 * i + 1);
        assert(num_advices[i] * 0x40 < 0x10000);
    }
}

/// Reading packed rescaling data back: the first three bytes give the number of words, the
/// decimals and the hash count times 0x20, and each group's two fields give its instance count
/// times 0x20 and its scale.
#[verifier::spinoff_prover]
pub proof fn lemma_rescaling_data_reads_back(
    scales: Seq<i32>,
    num_instances: Seq<usize>,
    decimals: usize,
    hash_count: usize,
    words: Seq<Word256>,
)
    requires
        rescaling_data_packable(scales, num_instances, decimals, hash_count),
        holds(words, rescaling_layout(scales, num_instances, decimals, hash_count)),
    ensures
        read_bits(words[0], 0, 8) == scaled_words_len(num_scaled(scales, num_instances)),
        read_bits(words[0], 8, 8) == decimals,
        read_bits(words[0], 16, 8) == hash_count * 0x20,
        forall|i: int|
            0 <= i < num_scaled(scales, num_instances) ==> read_bits(
                words[scaled_entry_word(i)],
                scaled_entry_offset(i),
                16,
            ) == #[trigger] num_instances[i] * 0x20 && read_bits(
                words[scaled_entry_word(i)],
                scaled_entry_offset(i) + 16,
                8,
            ) == scales[i],
{
    let layout = rescaling_layout(scales, num_instances, decimals, hash_count);
    let n = num_scaled(scales, num_instances);
    lemma_rescaling_layout_well_laid(scales, num_instances, decimals, hash_count);
    lemma_field_value(words, layout, 2 * n);
    lemma_field_value(words, layout, 2 * n + 1);
    lemma_field_value(words, layout, 2 * n + 2);
    assert forall|i: int| 0 <= i < n implies read_bits(
        words[scaled_entry_word(i)],
        scaled_entry_offset(i),
        16,
    ) == #[trigger] num_instances[i] * 0x20 && read_bits(
        words[scaled_entry_word(i)],
        scaled_entry_offset(i) + 16,
        8,
    ) == scales[i] by {
        lemma_field_value(words, layout, 2 * i);
        lemma_field_value(words, layout, 2 * i + 1);
        assert(num_instances[i] * 0x20 < 0x10000);
        assert(0 <= scales[i] < 0x100);
    }
}

} // verus!
