use sovereign_map::SovereignMap;

const RECORDED_HINTS: &str = "6eSa3s2hA5EM5v99RbdbZ18nRGdysEXX6fxuQNUvAtyukGNSJarPsXwpwfthdWyrojJi2pVrt7ogwKVWssVYeChUtGYWfwkKkXMoVQWBAKB43wyvgG1MaxmYWNmKFAtBHzFaiUUZRpPqLqqhrvdNgFmuXCdFQ6xEkfTB4GgbVhAt7mHrzBqD8sWzb4HT8o85zreR91TdRGr1pu9dxgVaGe4NNuWuMNXZBJd29rhwKDVzrrJsiBby3Z7LZqcGTXmnJZ4PPc6NzA2F2iBjxRre4c6JLpwdfbuifeSEUFsdyvfbinJyeUc6zm9rvGSHf1bZ5GD9qFpZkqnZv63HnL3MR5NtV4KFKLDoJaqXMav7Gi9atBMHCu96hwHtNDfnaeRGAUVUEiC5eUvZ1chCU7gsPfdPJZbSFiAuBUEM2H7Dt5oFKc8ruTpDCdhEfrxcLSKVFjLShHAup5U56r5UNmiZBykddQZDPrEgGQmU8yaY5gYVD2qRSvpMn32LRcKH27pTmwFikDcUT7isQCTVKubBZbsfJM599MtRbxJcdBPnC7cKHkpJwThVojHdtdjRiLSvXb8NNWHxi3XVxz4doXz78CseFuCpnYub22VLuUK8LQ7zexzTwdABCdWXBSiMZNThzsW5hWhk2L241G42wnPvyL8XtnQvoeDZ8K384F7fztQ5jxZREzoKqb26xxPWPCTiNaVPKa9RvRfvWJGVyyTQG1YWQtkHu6dFzerXoS9pWboJ3SV4VC4HikkhojnQ5GCZoug1YksdXz9i9zp8QajV1x1Uxj68YeoxfcNgoGrqm2cpFW8omWEgwWYEHbJ4v6S1heYbkCgmPkNq3cwnHScGasEPg6Tkvza6vtxbc8ytER9uGFPiczfLmSuniDQMjxqcwKB5rw8yNJRZWLAccG8o8zY9d25DjeFGyG18cz2VLbBCzDvqYPZ1C1u15oiKgp7g7kDzNEPEnozyeMjGwSy9fbfdLpvW2gm8wpUHVvD9jgfbtVBTFTtdFqdtBgTQdEYsnAfCjn6zoRZ9hYWQswRF9Q61eK2Rb4Kgt3SBPkZVk3eSndN8dX8QDKhmsHHdtGPoUmhQ45ELKnAWoFEetYpQDuQx6oENGvmuEnjUAM3va9vFs14ZEgptUpAAkgQwnkbUNprwEk4FpjL6jyy4rMkQsHobHts63V3xfwpoM7MWL8VrFJwLbZrFhkUybodnT2MqeeZFi6ZTGS9JB3vPyjkvWsms7gEw8ATuUZmZrL6VRmzMsuye8oNzEhVySE3XtJ3Wuu9BEDkuM1Y8GfVtjCYCHbntQn8Scf29GjVrCf3dUZjrjh";

#[test]
fn map_test() {
    let mut sm: SovereignMap = SovereignMap::new();

    sm.insert(String::from("rohan"), 10).unwrap();
    sm.insert(String::from("philippe"), 20).unwrap();
    assert_eq!(*sm.get(String::from("rohan")).unwrap(), 10);
    sm.insert(String::from("kevin"), 30).unwrap();
    assert_eq!(sm.get(String::from("carthage")), None);
    assert_eq!(sm.get(String::from("gilgamesh")), None);
    assert_eq!(*sm.get(String::from("rohan")).unwrap(), 10);
    assert_eq!(*sm.get(String::from("rohan")).unwrap(), 10);
    assert_eq!(*sm.get(String::from("rohan")).unwrap(), 10);
    assert_eq!(*sm.get(String::from("philippe")).unwrap(), 20);
    assert_eq!(sm.get(String::from("plato")), None);
    sm.insert(String::from("plato"), 40).unwrap();
    assert_eq!(*sm.get(String::from("plato")).unwrap(), 40);
    assert_eq!(*sm.get(String::from("plato")).unwrap(), 40);
    assert_eq!(*sm.get(String::from("plato")).unwrap(), 40);
    assert_eq!(*sm.get(String::from("plato")).unwrap(), 40);
    assert_eq!(sm.get(String::from("carthage")), None);
    assert_eq!(sm.get(String::from("pluto")), None);
    sm.insert(String::from("carthage"), 50).unwrap();
    sm.insert(String::from("gilgamesh"), 60).unwrap();
    assert_eq!(*sm.get(String::from("carthage")).unwrap(), 50);
    assert_eq!(*sm.get(String::from("gilgamesh")).unwrap(), 60);
    assert_eq!(sm.get(String::from("pluto")), None);
    sm.insert(String::from("pluto"), 70).unwrap();
    assert_eq!(*sm.get(String::from("rohan")).unwrap(), 10);
    assert_eq!(*sm.get(String::from("philippe")).unwrap(), 20);
    assert_eq!(*sm.get(String::from("pluto")).unwrap(), 70);

    println!("HINTS FOR ZK:\n\n{}\n", bs58::encode(sm.get_hints()).into_string());
}

#[test]
fn lib_map_test() {
    let mut sm: SovereignMap = SovereignMap::new();
    let hints = bs58::decode(RECORDED_HINTS).into_vec().unwrap();
    sm.set_hints(&hints).unwrap();

    sm.insert(String::from("rohan"), 10).unwrap();
    sm.insert(String::from("philippe"), 20).unwrap();
    assert_eq!(*sm.get(String::from("rohan")).unwrap(), 10);
    sm.insert(String::from("kevin"), 30).unwrap();
    assert_eq!(sm.get(String::from("carthage")), None);
    assert_eq!(sm.get(String::from("gilgamesh")), None);
    assert_eq!(*sm.get(String::from("rohan")).unwrap(), 10);
    assert_eq!(*sm.get(String::from("rohan")).unwrap(), 10);
    assert_eq!(*sm.get(String::from("rohan")).unwrap(), 10);
    assert_eq!(*sm.get(String::from("philippe")).unwrap(), 20);
    assert_eq!(sm.get(String::from("plato")), None);
    sm.insert(String::from("plato"), 40).unwrap();
    assert_eq!(*sm.get(String::from("plato")).unwrap(), 40);
    assert_eq!(*sm.get(String::from("plato")).unwrap(), 40);
    assert_eq!(*sm.get(String::from("plato")).unwrap(), 40);
    assert_eq!(*sm.get(String::from("plato")).unwrap(), 40);
    assert_eq!(sm.get(String::from("carthage")), None);
    assert_eq!(sm.get(String::from("pluto")), None);
    sm.insert(String::from("carthage"), 50).unwrap();
    sm.insert(String::from("gilgamesh"), 60).unwrap();
    assert_eq!(*sm.get(String::from("carthage")).unwrap(), 50);
    assert_eq!(*sm.get(String::from("gilgamesh")).unwrap(), 60);
    assert_eq!(sm.get(String::from("pluto")), None);
    sm.insert(String::from("pluto"), 70).unwrap();
    assert_eq!(*sm.get(String::from("rohan")).unwrap(), 10);
    assert_eq!(*sm.get(String::from("philippe")).unwrap(), 20);
    assert_eq!(*sm.get(String::from("pluto")).unwrap(), 70);
}
