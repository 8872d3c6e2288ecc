use markov::Chain;

fn collect_walk(chain: &Chain, word: &str) -> Vec<String> {
    let mut it = chain.generate_iter(word);
    let mut words = Vec::new();
    while let Some(w) = it.next(chain) {
        words.push(w);
    }
    words
}

#[test]
fn feed() {
    let mut chain = Chain::default();
    assert!(chain.index_of("hello").is_none());
    assert!(chain.index_of("world").is_none());
    assert!(chain.index_of("lizer").is_none());
    chain.feed("hello world");
    assert!(chain.index_of("hello").is_some());
    assert!(chain.index_of("world").is_some());
    assert!(chain.index_of("lizer").is_none());
}

#[test]
fn generate_iter() {
    let mut chain = Chain::default();
    chain.feed("henlo stinky lizer");
    assert_eq!(vec!["henlo", "stinky", "lizer"], collect_walk(&chain, "henlo"));
}

#[test]
fn generate_empty_iter() {
    let chain = Chain::default();
    let mut it = chain.generate_iter("hello");
    assert_eq!(it.next(&chain), None);
}

#[test]
fn weights() {
    let mut chain = Chain::default();
    chain.feed("henlo stinky");
    chain.feed("henlo stinky");
    chain.feed("henlo lizer");
    chain.feed("henlo boy");
    chain.feed("stinky lizer");
    chain.feed("stinky stinky boy");
    chain.feed("stinky stinky stinky stinky stinky");
    assert_eq!(chain.weight_between("henlo", "stinky"), Some(2));
    assert_eq!(chain.weight_between("henlo", "lizer"), Some(1));
    assert_eq!(chain.weight_between("henlo", "boy"), Some(1));
    assert_eq!(chain.weight_between("stinky", "boy"), Some(1));
    assert_eq!(chain.weight_between("stinky", "lizer"), Some(1));
    assert_eq!(chain.weight_between("stinky", "stinky"), Some(5));
}

#[test]
fn test() {
    let mut chain = Chain::default();
    chain.feed("henlo stinky");
    chain.feed("henlo lizer");
    chain.feed("henlo boy");
    chain.feed("stinky lizer");
    chain.feed("stinky boy");
    chain.feed("stinky stinky");
    for _ in 0..20 {
        println!("{}", collect_walk(&chain, "henlo").join(" "));
    }
}

#[test]
fn testing() {
    let mut chain = Chain::default();
    chain.feed("stinky boy");
    chain.feed("stinky lizer");
    chain.feed("stinky pinky");
    let mut boy_count = 0;
    let mut lizer_count = 0;
    let mut pinky_count = 0;
    for _ in 0..100000 {
        let words = collect_walk(&chain, "stinky");
        let string = words[1].as_str();
        match string {
            "boy" => boy_count += 1,
            "lizer" => lizer_count += 1,
            "pinky" => pinky_count += 1,
            _ => panic!(),
        }
    }
    println!(
        "boy: {}, lizer: {}, pinky: {}",
        boy_count, lizer_count, pinky_count
    );
}
