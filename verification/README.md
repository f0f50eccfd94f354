# yt_adguard_rules

Builds the merged AdGuard Home lists `blocklist.txt` and `allowlist.txt` from fixed
upstream rule sources and two custom lists, with the logic verified in Verus.

- `src/text.rs`: character helpers (`trim`, ASCII lower case, string building).
- `src/rule.rs`: the rule grammar: which lines are rules, adblock domain rules
  `[@@]||domain[^options]`, hosts entries `[address ]domain`, domain normalisation.
- `src/index.rs`: a hashed set of `(exception, domain, options)` keys.
- `src/coverage.rs`: which domains a set of rules covers, directly or through a parent domain.
- `src/sort.rs`: character order on strings and a merge sort.
- `src/merge.rs`: compaction of a rule list.
- `src/pipeline.rs`: source lines, routing to the allow or block list, the merge (allow
  rules win: a block rule for a domain that any collected allow rule excepts, with any
  options, leaves the block list, as does a rule that the allow list holds itself; parent
  domains cover with the same options or broadly), and the audits of the merged lists.
- `src/listing.rs`: the text of a published list, header then rules.
- `src/laws.rs`: properties of compaction and of the merge.
- `app/main.rs`: reads `sources.json` and the custom lists, downloads the sources, writes
  the two lists with the current date.
