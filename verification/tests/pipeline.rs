use bfirs::interpret::Error;
use bfirs::{InstructionStream, Interpreter};
use rand::distributions::Distribution as _;
use rand::Rng as _;

fn run_output(input: &str, optimize: bool) -> Result<Vec<u8>, Error> {
    let mut stream = InstructionStream::<u8>::from_code(input.as_bytes()).unwrap();
    if optimize {
        stream.optimize().unwrap();
    }
    let mut interpreter = Interpreter::build(Vec::new(), Vec::new())
        .instruction_limit(1_000_000)
        .build();
    let result = interpreter.run(stream.instructions());
    result.map(|()| interpreter.into_output())
}

#[test]
fn full_pipeline() {
    assert_eq!(
        run_output("++++[>++++[>++++<-]<-]>>+.", true),
        Ok(b"A".to_vec())
    );
    assert_eq!(run_output("<", true), Err(Error::Underflow));
    assert_eq!(run_output("+[>+]", true), Err(Error::Overflow));
    assert_eq!(run_output("+[]", true), Err(Error::NotEnoughInstructions));
}

#[test]
fn full_pipeline_unoptimized() {
    assert_eq!(
        run_output("++++[>++++[>++++<-]<-]>>+.", false),
        Ok(vec![0x41])
    );
    assert_eq!(run_output("<", false), Err(Error::Underflow));
    assert_eq!(run_output("+[>+]", false), Err(Error::Overflow));
    assert_eq!(run_output("+[]", false), Err(Error::NotEnoughInstructions));
}

fn generate_random_code() -> String {
    const NUM_SECTIONS: usize = 20;
    const NON_LOOP_CHARS: &[u8] = b"+-<>.."; // `.` is doubled to have a higher probability

    let loop_distribution = rand::distributions::Bernoulli::new(0.3).unwrap();
    let mut ret = String::new();

    for _ in 0..NUM_SECTIONS {
        let should_loop = loop_distribution.sample(&mut rand::thread_rng());
        if should_loop {
            ret.push('[');
        }
        let num_chars = rand::thread_rng().gen_range(0..100);
        ret.extend(
            rand::seq::SliceRandom::choose_multiple(NON_LOOP_CHARS, &mut rand::thread_rng(), num_chars)
                .copied()
                .map(char::from),
        );
        if should_loop {
            ret.push(']');
        }
    }

    ret
}

#[test]
fn optimization_fuzzer() {
    const NUM_FUZZES: usize = 250;
    for _ in 0..NUM_FUZZES {
        let code = generate_random_code();
        println!("fuzzing optimization of {code:?}");
        let unoptimized = run_output(&code, false);
        let optimized = run_output(&code, true);

        if matches!(optimized, Ok(..)) {
            if let Err(error) = &unoptimized {
                match error {
                    // the optimizer can remove instructions and allow it to finish
                    Error::NotEnoughInstructions => continue,
                    // these can cause {under,over}flows but are optimized out
                    Error::Overflow | Error::Underflow if code.contains("<>") || code.contains("><") => {
                        continue
                    }
                    _ => (),
                }
            }
        }

        // we don't want to compare the exact error that occurred, just that an error occurred.
        // preserving the same error is not within the optimizer's guarantees.
        println!("unoptimized result: {unoptimized:?}");
        println!("optimized result: {optimized:?}");
        assert_eq!(unoptimized.ok(), optimized.ok());
    }
}
