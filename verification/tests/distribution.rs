//! Statistical fidelity: sampling as many values as the original dataset held
//! and re-bucketing them reproduces the input histogram's proportions.

use std::collections::HashMap;

use histogram_sampler::Sampler;
use rand::Rng;

#[test]
fn it_works() {
    let stories_per_votecount = vec![
        (0, 16724),
        (10, 16393),
        (20, 4601),
        (30, 1707),
        (40, 680),
        (50, 281),
        (60, 128),
        (70, 60),
        (80, 35),
        (90, 16),
        (100, 4),
        (110, 4),
        (120, 10),
        (130, 1),
        (140, 2),
        (160, 1),
        (210, 1),
        (250, 1),
        (290, 1),
    ];

    // compute stats over the original data so we can compare the generated stream
    let data_nstories: isize = stories_per_votecount.iter().map(|&(_, n)| n as isize).sum();
    let data_nvotes = stories_per_votecount
        .iter()
        .map(|&(bin, n)| (bin * n) as isize)
        .sum::<isize>()
        + (stories_per_votecount.iter().next().unwrap().1 as f64 * 0.25) as isize;

    // what proportion of stories are in each bin?
    let data_proportions: Vec<_> = stories_per_votecount
        .iter()
        .map(|&(bin, n)| (bin, n as f64 / data_nstories as f64))
        .collect();

    // make our sampler, and sample from it, keeping track of the resulting vote counts note
    // that we must sample the same number of votes as are in the original dataset to expect
    // the resulting histogram to be the same (if we sample more, the bins will shift towards
    // higher values).
    let mut rng = rand::thread_rng();
    let mut votes = HashMap::new();
    let vote_sampler = Sampler::from_bins(stories_per_votecount, 10);
    assert_eq!(vote_sampler.nvalues(), data_nstories as usize);
    let total_weight = vote_sampler.total_weight();
    for _ in 0..data_nvotes {
        let draw = rng.gen_range(0..total_weight);
        let id = vote_sampler.sample(draw).unwrap();
        *votes.entry(id).or_insert(0) += 1;
    }

    // compute the histogram of the sampled dataset
    let mut hist = HashMap::new();
    for (_, votes) in votes {
        *hist.entry(10 * ((votes + 5) / 10)).or_insert(0) += 1;
    }

    // compute the same statistics over the sampled data
    let nstories: isize = hist.iter().map(|(_, &n)| n as isize).sum();
    let nvotes = hist.iter().map(|(&bin, &n)| bin * n).sum::<isize>()
        + (hist[&0] as f64 * 0.25) as isize;

    // number of stories and votes should be roughly (< 5%) the same
    println!("story count: {} -> {}", data_nstories, nstories);
    println!("vote count: {} -> {}", data_nvotes, nvotes);
    assert!((data_nstories - nstories).abs() < data_nstories / 20);
    assert!((data_nvotes - nvotes).abs() < data_nvotes / 20);

    // to compare the histograms we need to walk the rows of both
    let mut expected_props = data_proportions.iter().peekable();

    // let's do it in numerical order so we get more readable output
    let mut keys: Vec<_> = hist.keys().cloned().collect();
    keys.sort();

    for &bin in &keys {
        // proportion of stories in this bin
        let prop = hist[&bin] as f64 / nstories as f64;

        // get the proportion of stories in the same bin in the original histogram
        if let Some(&&(exp_bin, exp_prop)) = expected_props.peek() {
            // make sure we keep moving through the original histogram
            if exp_bin <= bin as usize {
                expected_props.next();
            }

            if exp_bin != bin as usize {
                // this better be a small bin if it doesn't match the original
                assert!(prop < 0.005);
                println!(
                    "{}\t{:>4.1}%\t??\t{}\t{:>4.1}%",
                    exp_bin,
                    100.0 * exp_prop,
                    bin,
                    100.0 * prop,
                );
                continue;
            }

            // how well did we do?
            let diff = prop - exp_prop;

            println!(
                "{}\t{:>4.1}%\t->\t{}\t{:>4.1}%\t(diff: {:>5.2})",
                exp_bin,
                100.0 * exp_prop,
                bin,
                100.0 * prop,
                100.0 * diff
            );

            if prop > 0.005 {
                // any bucket with .5% or more stories shoud match pretty well
                // the exception is the first and second bucket
                if bin == keys[0] {
                    // it's really hard to sample accurately near 0 with a bucket width of 10,
                    // since the chance of accidentally spilling over to >=5 is so high.
                    // so, we tolerate a larger (negative) error in this case
                    //
                    // NOTE: if we double the widths of the bins, this artefact goes away
                    assert!(diff < 0.0 && diff > -0.05);
                } else if bin == keys[1] {
                    // things that spill over from bin 0 spill into bin 1
                    assert!(diff > 0.0 && diff < 0.05);
                } else {
                    // all other buckets we should have very small errors (< 1pp)
                    assert!(diff.abs() < 0.01);
                }
            }
        } else {
            println!("\t\t??\t{}\t{:>4.1}%", bin, 100.0 * prop);
            // bins better be rare for them to differ from original histogram
            assert!(prop < 0.01);
        }
    }
}
